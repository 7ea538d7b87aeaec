use num_bigint::BigInt;
use piet_tools::assembler::optimizer::{factor_big_number, optimize, push, sanitize};
use piet_tools::assembler::AsmCommand;
use piet_tools::assembler::AsmCommand::{
    Add, Duplicate, Jump, JumpIf, Label, Multiply, Not, Pop, Stop, Subtract,
};
use piet_tools::assembler::PietAsm;

fn to_piet_asm(cmds: Vec<AsmCommand>) -> PietAsm {
    let count = cmds.iter().filter(|c| matches!(c, Label(_))).count();
    let mut jump_counts = vec![0; count];
    for cmd in &cmds {
        match cmd {
            Jump(id) | JumpIf(id) => {
                jump_counts[*id] += 1;
            }
            _ => (),
        }
    }
    PietAsm { cmds, jump_counts }
}

#[test]
fn optimizer_test_dup_pushes() {
    let program = to_piet_asm(vec![push(5), push(2), push(2), push(2), push(8), push(8)]);
    let PietAsm { cmds, .. } = optimize(program);
    assert_eq!(cmds, vec![push(5), push(2), Duplicate, Duplicate, push(8), Duplicate]);
}

#[test]
fn optimizer_test_stack_bump() {
    let program = to_piet_asm(vec![push(1), Multiply]);
    let PietAsm { cmds, .. } = optimize(program);
    assert_eq!(cmds, vec![push(1), Multiply]);
}

#[test]
fn asm_test_dup_pushes() {
    let program = PietAsm {
        cmds: vec![push(5), push(2), push(2), push(2), push(8), push(8)],
        jump_counts: Vec::new(),
    };
    let PietAsm { cmds, .. } = optimize(program);
    assert_eq!(cmds, vec![push(5), push(2), Duplicate, Duplicate, push(8), Duplicate]);
}

#[test]
fn asm_test_stack_bump() {
    let program = PietAsm { cmds: vec![push(1), Multiply], jump_counts: Vec::new() };
    let PietAsm { cmds, .. } = optimize(program);
    assert_eq!(cmds, vec![push(1), Multiply]);
}

#[test]
fn test_rm_unused_labels() {
    let program = to_piet_asm(vec![Label(0), push(1), Label(1), push(2), Label(2), Jump(1)]);
    let PietAsm { cmds, .. } = optimize(program);
    assert_eq!(cmds, vec![push(1), Label(1), push(2), Jump(1)]);
}

#[test]
fn test_rm_unnecessary_jump() {
    let program = to_piet_asm(vec![Jump(0), Label(0), Jump(0)]);
    let PietAsm { cmds, .. } = optimize(program);
    assert_eq!(cmds, vec![Label(0), Jump(0)]);
}

#[test]
fn test_rm_unnecessary_jump_and_label() {
    let program = to_piet_asm(vec![Jump(0), Label(0)]);
    let PietAsm { cmds, .. } = optimize(program);
    assert_eq!(cmds, vec![]);
}

#[test]
fn dropping_a_jump_lowers_its_count() {
    let program = to_piet_asm(vec![Jump(0), Label(0), Jump(0)]);
    let PietAsm { jump_counts, .. } = optimize(program);
    assert_eq!(jump_counts, vec![1]);
}

#[test]
fn three_negations_become_one() {
    let program = to_piet_asm(vec![Not, Not, Not, Not, Not]);
    let PietAsm { cmds, .. } = optimize(program);
    assert_eq!(cmds, vec![Not]);
    let program = to_piet_asm(vec![Not, Not]);
    let PietAsm { cmds, .. } = optimize(program);
    assert_eq!(cmds, vec![Not, Not]);
}

#[test]
fn a_dropped_label_lets_pushes_meet() {
    let program = to_piet_asm(vec![push(3), Label(0), push(3)]);
    let PietAsm { cmds, .. } = optimize(program);
    assert_eq!(cmds, vec![push(3), Duplicate]);
}

#[test]
fn sanitize_negative() {
    let program = sanitize(to_piet_asm(vec![AsmCommand::Push(BigInt::from(-3))]));
    assert_eq!(
        program.cmds,
        vec![push(1), push(1), push(1), push(1), Not, Subtract, Subtract, Subtract, Stop]
    );
}

#[test]
fn sanitize_zero() {
    let program = sanitize(to_piet_asm(vec![push(0), Jump(0), Label(0)]));
    assert_eq!(program.cmds, vec![push(1), Not, Jump(0), Label(0), Stop]);
    assert_eq!(program.jump_counts, vec![1]);
}

#[test]
fn sanitize_big() {
    let program = sanitize(to_piet_asm(vec![push(100), push(99), push(103)]));
    assert_eq!(
        program.cmds,
        vec![
            push(10),
            Duplicate,
            Multiply,
            push(99),
            push(10),
            Duplicate,
            Multiply,
            push(3),
            Add,
            Stop,
        ]
    );
}

#[test]
fn sanitize_very_big() {
    // 123456 = 351 * 351 + 255, 351 = 18 * 18 + 27, 255 = 15 * 15 + 30
    let program = sanitize(to_piet_asm(vec![push(123456), Pop]));
    assert_eq!(
        program.cmds,
        vec![
            push(18),
            Duplicate,
            Multiply,
            push(27),
            Add,
            Duplicate,
            Multiply,
            push(15),
            Duplicate,
            Multiply,
            push(30),
            Add,
            Add,
            Pop,
            Stop,
        ]
    );
}

#[test]
fn sanitize_ends_with_stop_or_jump() {
    assert_eq!(sanitize(to_piet_asm(Vec::new())).cmds, vec![Stop]);
    assert_eq!(sanitize(to_piet_asm(vec![Stop])).cmds, vec![Stop]);
    assert_eq!(sanitize(to_piet_asm(vec![Label(0), Jump(0)])).cmds, vec![Label(0), Jump(0)]);
    assert_eq!(
        sanitize(to_piet_asm(vec![Label(0), JumpIf(0)])).cmds,
        vec![Label(0), JumpIf(0), Stop]
    );
}

#[test]
fn sanitized_pushes_are_small_and_positive() {
    let mut cmds = Vec::new();
    for n in [-20, -1, 0, 1, 99, 100, 101, 4095, 65536, 1_000_003] {
        cmds.push(push(n));
    }
    let program = sanitize(to_piet_asm(cmds));
    for cmd in &program.cmds {
        if let AsmCommand::Push(n) = cmd {
            assert!(*n >= BigInt::from(1) && *n < BigInt::from(100));
        }
    }
    assert!(matches!(program.cmds.last(), Some(Stop)));
}

#[test]
fn big_numbers_are_taken_apart_once() {
    assert_eq!(factor_big_number(&BigInt::from(99)), None);
    assert_eq!(factor_big_number(&BigInt::from(0)), None);
    assert_eq!(factor_big_number(&BigInt::from(100)), Some(vec![push(10), Duplicate, Multiply]));
    assert_eq!(
        factor_big_number(&BigInt::from(5_000_000_000u64)),
        Some(vec![
            push(70710),
            Duplicate,
            Multiply,
            AsmCommand::Push(BigInt::from(5_000_000_000u64 - 70710u64 * 70710u64)),
            Add,
        ])
    );
}

#[test]
fn optimizing_never_lengthens() {
    let before = vec![
        Label(0),
        push(2),
        push(2),
        Not,
        Not,
        Not,
        Not,
        Jump(1),
        Label(1),
        push(2),
        Jump(1),
    ];
    let n = before.len();
    let program = optimize(to_piet_asm(before));
    assert!(program.cmds.len() <= n);
    assert_eq!(
        program.cmds,
        vec![push(2), Duplicate, Not, Not, Label(1), push(2), Jump(1)]
    );
    assert_eq!(program.jump_counts, vec![0, 1]);
}
