use num_bigint::BigInt;
use piet_tools::color::{Color, Hue, Lightness};
use piet_tools::grid::PietCode;
use piet_tools::pointer::{CodelChoice, Direction, InstructionPointer};
use piet_tools::vm::{Action, PietVM};
use piet_tools::walk::Outcome;

const RED: Color = Color::Color(Hue::Red, Lightness::Normal);
const DARK_RED: Color = Color::Color(Hue::Red, Lightness::Dark);

fn grid(rows: &[&str]) -> PietCode {
    let height = rows.len();
    let width = rows[0].len();
    let mut code = Vec::new();
    for row in rows {
        assert_eq!(row.len(), width);
        for c in row.chars() {
            code.push(match c {
                'R' => RED,
                'r' => DARK_RED,
                '.' => Color::White,
                '#' => Color::Black,
                _ => Color::Other,
            });
        }
    }
    PietCode::from_codels(width, height, code).unwrap()
}

fn to_stack(nums: &[i32]) -> Vec<BigInt> {
    nums.iter().map(|e| BigInt::from(*e)).collect()
}

/// Sliding, the halt when a slide starts as one did before, and the codel
/// chooser that flips with each blocked slide.
#[test]
fn test_slide() {
    let code = grid(&[
        "RRRRRRRRr.", //
        "#########.", //
        "#########.",
    ]);
    let mut runner = code.execute();
    let mut steps = 0;
    loop {
        assert!(runner.is_ready());
        match runner.step() {
            Outcome::Halted => break,
            Outcome::Ran(action) => assert!(matches!(action, Action::Nothing)),
            Outcome::Skipped(e) => panic!("command passed over: {:?}", e),
        }
        steps += 1;
        assert!(steps < 100);
    }
    assert_eq!(runner.vm.stack, to_stack(&[8]));
    assert_eq!(steps, 2);
    assert_eq!(runner.vm.pos, (9, 0));
    assert_eq!(
        runner.vm.instruction_pointer,
        InstructionPointer(Direction::Right, CodelChoice::Left)
    );
}

#[test]
fn slide_runs_into_color() {
    let code = grid(&["...R"]);
    let mut vm = PietVM::new();
    assert_eq!(vm.slide(&code), Some(((3, 0), RED)));
    assert_eq!(vm.pos, (2, 0));
    let mut vm = PietVM::new();
    assert_eq!(vm.walk_white(&code), Some(((3, 0), RED)));
    assert_eq!(vm.instruction_pointer, InstructionPointer(Direction::Right, CodelChoice::Left));
}

#[test]
fn blocked_slide_turns_about() {
    let code = grid(&[
        "..#", //
        "R.#",
    ]);
    let mut vm = PietVM::new();
    // right to the wall, turned down with the chooser flipped, down to the
    // edge, turned left: into the red codel
    assert_eq!(vm.walk_white(&code), Some(((0, 1), RED)));
    assert_eq!(vm.pos, (1, 1));
    assert_eq!(vm.instruction_pointer, InstructionPointer(Direction::Left, CodelChoice::Left));
}

#[test]
fn slide_that_comes_round_halts() {
    let code = grid(&[
        "...", //
        "...",
    ]);
    let mut vm = PietVM::new();
    assert_eq!(vm.walk_white(&code), None);
    let mut vm = PietVM::new();
    assert!(matches!(vm.step(&code), Outcome::Halted));
}

#[test]
fn color_walk_probes_eight_ways() {
    // the only way out of the red block is upwards from its left column
    let code = grid(&[
        "#.##", //
        "#RR#", //
        "#RR#", //
        "####",
    ]);
    let mut vm = PietVM::new();
    vm.pos = (1, 1);
    vm.instruction_pointer = InstructionPointer(Direction::Right, CodelChoice::Left);
    let (region, coord, color) = vm.walk_color(&code).unwrap();
    assert_eq!(region.value(), BigInt::from(4));
    assert_eq!(coord, (1, 0));
    assert_eq!(color, Color::White);
    // right/left, right/right, down/right, down/left, left/left, left/right,
    // up/right fail; up/left leads out
    assert_eq!(vm.instruction_pointer, InstructionPointer(Direction::Up, CodelChoice::Left));
    assert_eq!(vm.pos, (1, 1));
}

#[test]
fn color_walk_without_exit_halts() {
    let code = grid(&[
        "###", //
        "#R#", //
        "###",
    ]);
    let mut vm = PietVM::new();
    vm.pos = (1, 1);
    vm.instruction_pointer = InstructionPointer(Direction::Down, CodelChoice::Right);
    assert!(vm.walk_color(&code).is_none());
    assert_eq!(vm.instruction_pointer, InstructionPointer(Direction::Down, CodelChoice::Right));
    assert!(matches!(vm.step(&code), Outcome::Halted));
}

#[test]
fn other_codels_block_like_black() {
    let code = grid(&["R?", ".?"]);
    let mut vm = PietVM::new();
    let (_, coord, color) = vm.walk_color(&code).unwrap();
    assert_eq!(coord, (0, 1));
    assert_eq!(color, Color::White);
}

#[test]
fn step_pushes_the_size_of_the_region() {
    let code = grid(&["RRr", "RR#"]);
    let mut vm = PietVM::new();
    assert!(matches!(vm.step(&code), Outcome::Ran(Action::Nothing)));
    assert_eq!(vm.stack, to_stack(&[4]));
    assert_eq!(vm.pos, (2, 0));
}

#[test]
fn step_passes_over_a_command_that_cannot_run() {
    // red to dark red twice over is push then pop; here dark red to red is
    // the first step, a pop on an empty stack
    let code = grid(&["rR"]);
    let mut vm = PietVM::new();
    match vm.step(&code) {
        Outcome::Skipped(e) => {
            assert!(matches!(e, piet_tools::vm::ExecutionError::NotEnoughStack(1, 0)))
        }
        _ => panic!("the command should have been passed over"),
    }
    assert_eq!(vm.pos, (1, 0));
    assert!(vm.stack.is_empty());
}
