use num_bigint::BigInt;
use piet_tools::color::Command;
use piet_tools::pointer::{CodelChoice, Direction, InstructionPointer};
use piet_tools::vm::{Action, ExecutionError, PietVM};

fn to_stack(nums: &[i32]) -> Vec<BigInt> {
    nums.iter().map(|e| BigInt::from(*e)).collect()
}

fn zero() -> BigInt {
    BigInt::from(0)
}

#[test]
fn test_roll() {
    let mut vm = PietVM { stack: to_stack(&[4, 5, 6, 7, 8, 9, 3, 2]), ..Default::default() };
    vm.run_command(Command::Roll, zero()).unwrap();
    assert_eq!(vm.stack, to_stack(&[4, 5, 6, 8, 9, 7]));
}

#[test]
fn test_div_zero() {
    let mut vm = PietVM { stack: to_stack(&[4, 0]), ..Default::default() };
    let result = vm.run_command(Command::Divide, zero());
    assert!(matches!(result, Err(ExecutionError::DivisionByZero)));
    assert_eq!(vm.stack, to_stack(&[4, 0]));
}

#[test]
fn test_div_zero_too_few() {
    let mut vm = PietVM { stack: to_stack(&[0]), ..Default::default() };
    let result = vm.run_command(Command::Divide, zero());
    assert!(matches!(result, Err(ExecutionError::NotEnoughStack(2, 1))));
    assert_eq!(vm.stack, to_stack(&[0]));
}

#[test]
fn test_mod_zero() {
    let mut vm = PietVM { stack: to_stack(&[4, 0]), ..Default::default() };
    let result = vm.run_command(Command::Mod, zero());
    assert!(matches!(result, Err(ExecutionError::DivisionByZero)));
    assert_eq!(vm.stack, to_stack(&[4, 0]));
}

#[test]
fn test_mod_zero_too_few() {
    let mut vm = PietVM { stack: to_stack(&[0]), ..Default::default() };
    let result = vm.run_command(Command::Mod, zero());
    assert!(matches!(result, Err(ExecutionError::NotEnoughStack(2, 1))));
    assert_eq!(vm.stack, to_stack(&[0]));
}

#[test]
fn floored_division_rounds_down() {
    let mut vm = PietVM { stack: to_stack(&[-7, 2]), ..Default::default() };
    let result = vm.run_command(Command::Divide, zero());
    assert!(matches!(result, Ok(Action::Nothing)));
    assert_eq!(vm.stack, to_stack(&[-4]));
}

#[test]
fn floored_remainder_has_sign_of_divisor() {
    let mut vm = PietVM { stack: to_stack(&[-7, 2]), ..Default::default() };
    vm.run_command(Command::Mod, zero()).unwrap();
    assert_eq!(vm.stack, to_stack(&[1]));
    let mut vm = PietVM { stack: to_stack(&[7, -2]), ..Default::default() };
    vm.run_command(Command::Mod, zero()).unwrap();
    assert_eq!(vm.stack, to_stack(&[-1]));
    let mut vm = PietVM { stack: to_stack(&[7, -2]), ..Default::default() };
    vm.run_command(Command::Divide, zero()).unwrap();
    assert_eq!(vm.stack, to_stack(&[-4]));
}

#[test]
fn stack_arithmetic() {
    let cases: [(Command, &[i32], &[i32]); 9] = [
        (Command::Add, &[1, 2, 3], &[1, 5]),
        (Command::Subtract, &[1, 2, 3], &[1, -1]),
        (Command::Multiply, &[4, -3], &[-12]),
        (Command::Greater, &[4, 3], &[1]),
        (Command::Greater, &[3, 3], &[0]),
        (Command::Not, &[7, 0], &[7, 1]),
        (Command::Not, &[7, 5], &[7, 0]),
        (Command::Duplicate, &[7, 5], &[7, 5, 5]),
        (Command::Pop, &[7, 5], &[7]),
    ];
    for (command, before, after) in cases {
        let mut vm = PietVM { stack: to_stack(before), ..Default::default() };
        assert!(matches!(vm.run_command(command, zero()), Ok(Action::Nothing)));
        assert_eq!(vm.stack, to_stack(after));
    }
}

#[test]
fn push_pushes_the_value() {
    let mut vm = PietVM::new();
    vm.run_command(Command::Push, BigInt::from(42)).unwrap();
    vm.run_command(Command::Noop, BigInt::from(1)).unwrap();
    assert_eq!(vm.stack, to_stack(&[42]));
}

#[test]
fn pointer_turns_by_the_value() {
    for (n, want) in [
        (0, Direction::Right),
        (1, Direction::Down),
        (2, Direction::Left),
        (3, Direction::Up),
        (4, Direction::Right),
        (-1, Direction::Up),
        (-6, Direction::Left),
    ] {
        let mut vm = PietVM { stack: to_stack(&[n]), ..Default::default() };
        vm.run_command(Command::Pointer, zero()).unwrap();
        assert_eq!(vm.instruction_pointer, InstructionPointer(want, CodelChoice::Left));
        assert!(vm.stack.is_empty());
    }
}

#[test]
fn switch_flips_on_odd_values() {
    for (n, want) in [
        (0, CodelChoice::Left),
        (1, CodelChoice::Right),
        (2, CodelChoice::Left),
        (-1, CodelChoice::Right),
        (-3, CodelChoice::Right),
    ] {
        let mut vm = PietVM { stack: to_stack(&[n]), ..Default::default() };
        vm.run_command(Command::Switch, zero()).unwrap();
        assert_eq!(vm.instruction_pointer, InstructionPointer(Direction::Right, want));
        assert!(vm.stack.is_empty());
    }
}

#[test]
fn too_short_a_stack_changes_nothing() {
    for command in [
        Command::Pop,
        Command::Not,
        Command::Pointer,
        Command::Switch,
        Command::Duplicate,
        Command::OutNum,
        Command::OutChar,
    ] {
        let mut vm = PietVM::new();
        let result = vm.run_command(command, zero());
        assert!(matches!(result, Err(ExecutionError::NotEnoughStack(1, 0))));
        assert!(vm.stack.is_empty());
    }
    for command in [
        Command::Add,
        Command::Subtract,
        Command::Multiply,
        Command::Divide,
        Command::Mod,
        Command::Greater,
        Command::Roll,
    ] {
        let mut vm = PietVM { stack: to_stack(&[5]), ..Default::default() };
        let result = vm.run_command(command, zero());
        assert!(matches!(result, Err(ExecutionError::NotEnoughStack(2, 1))));
        assert_eq!(vm.stack, to_stack(&[5]));
    }
}

#[test]
fn rolls_that_cannot_be() {
    let mut vm = PietVM { stack: to_stack(&[1, 2, 0, 1]), ..Default::default() };
    let result = vm.run_command(Command::Roll, zero());
    assert!(matches!(result, Err(ExecutionError::NegativeRoll(n)) if n == BigInt::from(0)));
    assert_eq!(vm.stack, to_stack(&[1, 2, 0, 1]));

    let mut vm = PietVM { stack: to_stack(&[1, 2, -2, 1]), ..Default::default() };
    let result = vm.run_command(Command::Roll, zero());
    assert!(matches!(result, Err(ExecutionError::NegativeRoll(n)) if n == BigInt::from(-2)));

    let mut vm = PietVM { stack: to_stack(&[1, 2, 3, 1]), ..Default::default() };
    let result = vm.run_command(Command::Roll, zero());
    assert!(matches!(result, Err(ExecutionError::NotEnoughStack(3, 2))));
    assert_eq!(vm.stack, to_stack(&[1, 2, 3, 1]));

    let huge = BigInt::from(u64::MAX) * BigInt::from(u64::MAX);
    let mut vm = PietVM { stack: vec![BigInt::from(1), huge, BigInt::from(1)], ..Default::default() };
    let result = vm.run_command(Command::Roll, zero());
    assert!(matches!(result, Err(ExecutionError::IntegerOverflow)));
    assert_eq!(vm.stack.len(), 3);
}

#[test]
fn rolls_turn_the_top_of_the_stack() {
    let mut vm = PietVM { stack: to_stack(&[1, 2, 3, 3, -1]), ..Default::default() };
    vm.run_command(Command::Roll, zero()).unwrap();
    assert_eq!(vm.stack, to_stack(&[2, 3, 1]));
    let mut vm = PietVM { stack: to_stack(&[1, 2, 3, 3, 3]), ..Default::default() };
    vm.run_command(Command::Roll, zero()).unwrap();
    assert_eq!(vm.stack, to_stack(&[1, 2, 3]));
    let mut vm = PietVM { stack: to_stack(&[1, 2, 3, 1, 5]), ..Default::default() };
    vm.run_command(Command::Roll, zero()).unwrap();
    assert_eq!(vm.stack, to_stack(&[1, 2, 3]));
}

#[test]
fn output_is_handed_back() {
    let mut vm = PietVM { stack: to_stack(&[-5, 65]), ..Default::default() };
    assert!(matches!(vm.run_command(Command::OutChar, zero()), Ok(Action::WriteChar(65))));
    assert!(
        matches!(vm.run_command(Command::OutNum, zero()), Ok(Action::WriteNumber(n)) if n == BigInt::from(-5))
    );
    assert!(vm.stack.is_empty());
}

#[test]
fn characters_must_fit_a_byte() {
    for n in [256, -1, 100000] {
        let mut vm = PietVM { stack: to_stack(&[n]), ..Default::default() };
        let result = vm.run_command(Command::OutChar, zero());
        assert!(matches!(result, Err(ExecutionError::EncodeError(m)) if m == BigInt::from(n)));
        assert_eq!(vm.stack, to_stack(&[n]));
    }
    let mut vm = PietVM { stack: to_stack(&[255]), ..Default::default() };
    assert!(matches!(vm.run_command(Command::OutChar, zero()), Ok(Action::WriteChar(255))));
}

#[test]
fn input_is_asked_for_and_supplied() {
    let mut vm = PietVM { stack: to_stack(&[1]), ..Default::default() };
    assert!(matches!(vm.run_command(Command::InChar, zero()), Ok(Action::ReadChar)));
    assert_eq!(vm.stack, to_stack(&[1]));
    vm.supply(BigInt::from(97));
    assert!(matches!(vm.run_command(Command::InNum, zero()), Ok(Action::ReadNumber)));
    vm.supply(BigInt::from(-12));
    assert_eq!(vm.stack, to_stack(&[1, 97, -12]));
}

#[test]
fn tops_of_the_stack() {
    let mut vm = PietVM { stack: to_stack(&[1, 2, 3]), ..Default::default() };
    assert_eq!(vm.last1().unwrap(), &BigInt::from(3));
    let (a, b) = vm.last2().unwrap();
    assert_eq!((a, b), (&BigInt::from(2), &BigInt::from(3)));
    assert_eq!(vm.pop2().unwrap(), (BigInt::from(2), BigInt::from(3)));
    assert_eq!(vm.pop1().unwrap(), BigInt::from(1));
    assert!(matches!(vm.pop1(), Err(ExecutionError::NotEnoughStack(1, 0))));
    assert!(matches!(vm.last1(), Err(ExecutionError::NotEnoughStack(1, 0))));
    assert!(matches!(vm.pop2(), Err(ExecutionError::NotEnoughStack(2, 0))));
    assert!(matches!(vm.last2(), Err(ExecutionError::NotEnoughStack(2, 0))));
}
