use num_bigint::BigInt;
use piet_tools::assembler::buffer::{DrawError, PietCodeBuffer, PietCodeBufferEdit, Rect};
use piet_tools::assembler::generator::{generate, DrawPattern};
use piet_tools::assembler::optimizer::{optimize, push, sanitize};
use piet_tools::assembler::AsmCommand;
use piet_tools::assembler::AsmCommand::{
    Add, Duplicate, Jump, JumpIf, Label, Multiply, Not, OutNum, Pop, Stop, Subtract,
};
use piet_tools::assembler::PietAsm;
use piet_tools::color::{Color, Command, Hue, Lightness};
use piet_tools::grid::PietCode;
use piet_tools::vm::Action;
use piet_tools::walk::Outcome;

const RED: Color = Color::Color(Hue::Red, Lightness::Normal);

fn with_counts(cmds: Vec<AsmCommand>) -> PietAsm {
    let count = cmds.iter().filter(|c| matches!(c, Label(_))).count();
    let mut jump_counts = vec![0; count];
    for cmd in &cmds {
        match cmd {
            Jump(id) | JumpIf(id) => {
                jump_counts[*id] += 1;
            }
            _ => (),
        }
    }
    PietAsm { cmds, jump_counts }
}

/// Runs a grid until it halts or `limit` steps are done; returns what it
/// wrote and the stack it left.
fn run(code: &PietCode, limit: usize) -> (Vec<String>, Vec<BigInt>, bool) {
    let mut runner = code.execute();
    let mut written = Vec::new();
    let mut halted = false;
    for _ in 0..limit {
        assert!(runner.is_ready());
        match runner.step() {
            Outcome::Halted => {
                halted = true;
                break;
            }
            Outcome::Ran(Action::WriteNumber(n)) => written.push(n.to_string()),
            Outcome::Ran(Action::WriteChar(b)) => written.push((b as char).to_string()),
            Outcome::Ran(_) => {}
            Outcome::Skipped(e) => panic!("command passed over: {:?}", e),
        }
    }
    (written, runner.vm.stack, halted)
}

#[test]
fn label_picture_is_read_as_drawn() {
    let pattern = DrawPattern::generate(b"  #\n>...>\n #..\n   #\n", Vec::new()).unwrap();
    assert_eq!(
        pattern.pixels,
        vec![
            (1, 0, Color::Black),
            (0, 1, Color::White),
            (1, 1, Color::White),
            (2, 1, Color::White),
            (0, 2, Color::Black),
            (1, 2, Color::White),
            (2, 2, Color::White),
            (2, 3, Color::Black),
        ]
    );
    assert_eq!(pattern.off_y, 1);
    assert_eq!(pattern.step_x, 3);
    assert_eq!(pattern.allocation_width, 4);
    assert_eq!(pattern.last_color, Some(Color::White));
}

#[test]
fn picture_letters_take_the_colors_given() {
    let pattern = DrawPattern::generate(b"   #\n>..a#\n #aa#\n  ##\n", vec![RED]).unwrap();
    assert_eq!(pattern.step_x, 4);
    assert_eq!(pattern.allocation_width, 4);
    assert_eq!(pattern.last_color, None);
    assert!(pattern.pixels.contains(&(2, 1, RED)));
    assert!(pattern.pixels.contains(&(3, 1, Color::Black)));
    assert_eq!(pattern.pixels.len(), 11);
}

#[test]
fn pictures_that_cannot_be_drawn_are_refused() {
    // no line on which the track enters
    assert!(DrawPattern::generate(b" ..\n ..\n", Vec::new()).is_none());
    // the track enters on the first line
    assert!(DrawPattern::generate(b">..\n", Vec::new()).is_none());
    // two lines on which the track enters
    assert!(DrawPattern::generate(b" .\n>.\n>.\n", Vec::new()).is_none());
    // a letter without a colour
    assert!(DrawPattern::generate(b" .\n>a\n", Vec::new()).is_none());
    // a character that is not allowed
    assert!(DrawPattern::generate(b" .\n>?\n", Vec::new()).is_none());
    // a codel in the first column
    assert!(DrawPattern::generate(b".\n>.\n", Vec::new()).is_none());
    // an empty line
    assert!(DrawPattern::generate(b" .\n\n>.\n", Vec::new()).is_none());
    // no codel at all
    assert!(DrawPattern::generate(b" \n>\n", Vec::new()).is_none());
    // the track leaves on another line than it enters
    assert!(DrawPattern::generate(b" ..>\n>..\n", Vec::new()).is_none());
    // the track leaves twice
    assert!(DrawPattern::generate(b" .\n>.>>\n", Vec::new()).is_none());
    // a codel right of where the track leaves
    assert!(DrawPattern::generate(b" ....\n>.>\n", Vec::new()).is_none());
}

#[test]
fn draw_pixel_takes_unpainted_and_equal_only() {
    let mut buffer = PietCodeBuffer::new(3, 2);
    assert_eq!(buffer.code, vec![Color::Other; 6]);
    assert_eq!(buffer.draw_pixel(1, 1, RED), Ok(()));
    assert_eq!(buffer.code[4], RED);
    assert_eq!(buffer.draw_pixel(1, 1, RED), Ok(()));
    assert_eq!(
        buffer.draw_pixel(1, 1, Color::White),
        Err(DrawError::ColorMismatch(Color::White, RED, (1, 1)))
    );
    assert_eq!(buffer.code[4], RED);
    assert_eq!(buffer.draw_pixel(3, 0, RED), Err(DrawError::OutOfBounds(3, 0)));
    assert_eq!(buffer.draw_pixel(0, 2, Color::Black), Ok(()));
    assert_eq!(buffer.draw_pixel_overwrite(1, 1, Color::White), Ok(()));
    assert_eq!(buffer.code[4], Color::White);
    assert_eq!(
        buffer.draw_pixel_overwrite(0, 5, Color::White),
        Err(DrawError::OutOfBounds(0, 5))
    );
}

#[test]
fn reserve_adds_unpainted_rows() {
    let mut buffer = PietCodeBuffer::new(2, 1);
    buffer.draw_pixel(1, 0, RED).unwrap();
    buffer.reserve(2);
    assert_eq!(buffer.height, 3);
    assert_eq!(
        buffer.code,
        vec![Color::Other, RED, Color::Other, Color::Other, Color::Other, Color::Other]
    );
}

#[test]
fn a_failed_edit_leaves_the_grid_alone() {
    let mut buffer = PietCodeBuffer::new(4, 4);
    buffer.draw_pixel(2, 2, RED).unwrap();
    let before = buffer.code.clone();
    let area = Rect { x: 1, y: 1, width: 3, height: 3 };
    let mut edit = PietCodeBufferEdit::new_slice(&buffer, area);
    assert_eq!(edit.draw_pixel(0, 0, Color::White), Ok(()));
    assert_eq!(
        edit.draw_rect(0, 0, 2, 2, Color::White),
        Err(DrawError::ColorMismatch(Color::White, RED, (1, 1)))
    );
    assert!(edit.poisoned);
    edit.commit(&mut buffer);
    assert_eq!(buffer.code, before);
}

#[test]
fn a_finished_edit_lands_whole() {
    let mut buffer = PietCodeBuffer::new(4, 3);
    let area = Rect { x: 1, y: 1, width: 2, height: 2 };
    let mut edit = PietCodeBufferEdit::new_slice(&buffer, area);
    assert_eq!(edit.draw_rect(0, 0, 2, 1, Color::White), Ok(()));
    assert_eq!(edit.draw_pixel(1, 1, RED), Ok(()));
    assert!(!edit.poisoned);
    edit.commit(&mut buffer);
    let o = Color::Other;
    let w = Color::White;
    assert_eq!(buffer.code, vec![o, o, o, o, o, w, w, o, o, o, RED, o]);
}

#[test]
fn clone_slice_copies_the_area() {
    let mut buffer = PietCodeBuffer::new(3, 3);
    buffer.draw_pixel(1, 1, RED).unwrap();
    buffer.draw_pixel(2, 2, Color::White).unwrap();
    let slice = buffer.clone_slice(Rect { x: 1, y: 1, width: 2, height: 2 });
    assert_eq!(slice.width, 2);
    assert_eq!(slice.height, 2);
    assert_eq!(slice.code, vec![RED, Color::Other, Color::Other, Color::White]);
}

#[test]
fn generated_sum_runs() {
    let program = sanitize(optimize(with_counts(vec![push(3), push(4), Add, OutNum, Stop])));
    let code = generate(program).unwrap();
    assert_eq!(code.width(), 100);
    let (written, stack, halted) = run(&code, 10_000);
    assert!(halted);
    assert_eq!(written, vec!["7".to_string()]);
    assert_eq!(stack, Vec::<BigInt>::new());
}

#[test]
fn generated_big_numbers_and_zero_run() {
    let program = sanitize(optimize(with_counts(vec![
        AsmCommand::Push(BigInt::from(1234)),
        OutNum,
        push(0),
        OutNum,
        AsmCommand::Push(BigInt::from(100)),
        OutNum,
    ])));
    let code = generate(program).unwrap();
    let (written, stack, halted) = run(&code, 100_000);
    assert!(halted);
    assert_eq!(written, vec!["1234".to_string(), "0".to_string(), "100".to_string()]);
    assert_eq!(stack, Vec::<BigInt>::new());
}

#[test]
fn generated_long_program_wraps_rows() {
    let mut cmds = Vec::new();
    for i in 1..40 {
        cmds.push(push(i));
        cmds.push(OutNum);
    }
    cmds.push(Stop);
    let code = generate(sanitize(with_counts(cmds))).unwrap();
    assert!(code.height() > 10);
    assert_eq!(code.height() % 10, 0);
    let (written, _, halted) = run(&code, 100_000);
    assert!(halted);
    let expected: Vec<String> = (1..40).map(|i| i.to_string()).collect();
    assert_eq!(written, expected);
}

#[test]
fn generated_loop_counts_down() {
    // 3 2 1, by a conditional jump back to a label
    let program = sanitize(with_counts(vec![
        push(3),
        Label(0),
        Duplicate,
        OutNum,
        push(1),
        Subtract,
        Duplicate,
        Not,
        Not,
        JumpIf(0),
        Pop,
        Stop,
    ]));
    let code = generate(program).unwrap();
    let (written, stack, halted) = run(&code, 100_000);
    assert!(halted);
    assert_eq!(written, vec!["3".to_string(), "2".to_string(), "1".to_string()]);
    assert_eq!(stack, Vec::<BigInt>::new());
}

#[test]
fn jump_to_later_label_is_refused() {
    let program = sanitize(with_counts(vec![Jump(0), push(1), Label(0), Stop]));
    assert!(matches!(generate(program), Err(DrawError::Todo)));
}

#[test]
fn squares_multiply() {
    let program = sanitize(with_counts(vec![push(7), Duplicate, Multiply, OutNum]));
    let code = generate(program).unwrap();
    let (written, _, halted) = run(&code, 100_000);
    assert!(halted);
    assert_eq!(written, vec!["49".to_string()]);
}

fn at(buffer: &PietCodeBuffer, x: usize, y: usize) -> Color {
    buffer.code[y * buffer.width + x]
}

#[test]
fn allocation_gives_up_after_ten_attempts() {
    let mut buffer = PietCodeBuffer::new(100, 10);
    for x in 0..60 {
        buffer.jump_xs.insert(x);
    }
    assert!(matches!(buffer.allocate(3), Err(DrawError::AllocationError)));
    // ten times the track was led past a reserved column
    assert_eq!(buffer.x, 30);
    for x in 0..30 {
        assert_eq!(at(&buffer, x, 1), Color::White);
    }
    assert_eq!(at(&buffer, 30, 1), Color::Other);
}

#[test]
fn allocation_steps_past_a_reserved_column() {
    let mut buffer = PietCodeBuffer::new(100, 10);
    buffer.x = 4;
    buffer.jump_xs.insert(5);
    let (edit, last_color) = buffer.allocate(3).unwrap();
    assert_eq!(last_color, Some(Color::White));
    assert_eq!(buffer.x, 6);
    assert_eq!(edit.area, Rect { x: 6, y: 0, width: 3, height: 10 });
    assert_eq!(at(&buffer, 4, 1), Color::White);
    assert_eq!(at(&buffer, 5, 1), Color::White);
    assert_eq!(at(&buffer, 6, 1), Color::Other);
}

#[test]
fn commands_are_drawn_as_steps_of_color() {
    let mut buffer = PietCodeBuffer::new(100, 10);
    assert_eq!(buffer.draw_command(Command::Push), Ok(()));
    assert_eq!(at(&buffer, 0, 1), RED);
    assert_eq!(at(&buffer, 1, 1), Color::Color(Hue::Red, Lightness::Dark));
    assert_eq!(buffer.x, 2);
    assert_eq!(buffer.last_color, Some(Color::Color(Hue::Red, Lightness::Dark)));
    assert_eq!(buffer.draw_command(Command::Add), Ok(()));
    assert_eq!(at(&buffer, 2, 1), Color::Color(Hue::Yellow, Lightness::Dark));
    assert_eq!(buffer.x, 3);
    buffer.last_color = Some(Color::White);
    assert_eq!(buffer.draw_command(Command::Pop), Ok(()));
    assert_eq!(at(&buffer, 3, 1), RED);
    assert_eq!(at(&buffer, 4, 1), Color::Color(Hue::Red, Lightness::Light));
    assert_eq!(buffer.x, 5);
}

#[test]
fn newline_gadget_is_drawn_as_pictured() {
    let buffer = PietCodeBuffer::new(6, 20);
    let mut edit = PietCodeBufferEdit::new(&buffer);
    assert_eq!(edit.draw_newline(3, 1), Ok(()));
    let drawn = &edit.edited;
    let w = Color::White;
    let b = Color::Black;
    let o = Color::Other;
    let rows: Vec<Vec<Color>> = (0..20)
        .map(|y| (0..6).map(|x| drawn.code[y * 6 + x]).collect())
        .collect();
    assert_eq!(rows[0], vec![o, o, o, o, o, o]);
    assert_eq!(rows[1], vec![o, o, o, w, b, o]);
    for y in 2..7 {
        assert_eq!(rows[y], vec![o, o, o, w, o, o]);
    }
    assert_eq!(rows[7], vec![b, o, o, w, o, o]);
    assert_eq!(rows[8], vec![w, w, b, w, o, o]);
    assert_eq!(rows[9], vec![w, w, w, w, w, w]);
    assert_eq!(rows[10], vec![b, w, o, b, o, o]);
    assert_eq!(rows[11], vec![w, w, o, o, o, o]);
    assert_eq!(rows[12], vec![w, w, o, o, o, o]);
    assert_eq!(rows[13], vec![o, b, o, o, o, o]);
    assert_eq!(rows[14], vec![o, o, o, o, o, o]);
}

#[test]
fn a_row_is_drawn_white_from_side_to_side() {
    let buffer = PietCodeBuffer::new(3, 3);
    let mut edit = PietCodeBufferEdit::new(&buffer);
    assert_eq!(edit.draw_horiz(1), Ok(()));
    let o = Color::Other;
    let w = Color::White;
    assert_eq!(edit.edited.code, vec![o, o, o, w, w, w, o, o, o]);
    assert_eq!(edit.draw_horiz(3), Err(DrawError::OutOfBounds(0, 3)));
    assert!(edit.poisoned);
    let mut edit = PietCodeBufferEdit::new(&buffer);
    assert_eq!(edit.poison_on_err(Ok::<u8, DrawError>(3)), Ok(3));
    assert!(!edit.poisoned);
    assert_eq!(
        edit.poison_on_err(Err::<u8, DrawError>(DrawError::Todo)),
        Err(DrawError::Todo)
    );
    assert!(edit.poisoned);
}

#[test]
fn advancing_leads_the_track_in_white() {
    let mut buffer = PietCodeBuffer::new(100, 10);
    buffer.x = 3;
    buffer.last_color = Some(RED);
    assert_eq!(buffer.advance_to(7), Ok(()));
    assert_eq!(buffer.x, 7);
    assert_eq!(buffer.last_color, Some(Color::White));
    for x in 3..7 {
        assert_eq!(at(&buffer, x, 1), Color::White);
    }
    assert_eq!(at(&buffer, 7, 1), Color::Other);
    // back to an earlier column: in a new row
    assert_eq!(buffer.advance_to(4), Ok(()));
    assert_eq!(buffer.height, 20);
    assert_eq!((buffer.x, buffer.y), (4, 10));
    assert_eq!(at(&buffer, 2, 11), Color::White);
    assert_eq!(at(&buffer, 3, 11), Color::White);
    assert_eq!(at(&buffer, 4, 11), Color::Other);
}

#[test]
fn advancing_without_a_track_draws_nothing() {
    let mut buffer = PietCodeBuffer::new(100, 10);
    assert_eq!(buffer.advance_to(7), Ok(()));
    assert_eq!(buffer.x, 7);
    assert_eq!(buffer.last_color, None);
    assert_eq!(buffer.code, vec![Color::Other; 1000]);
}

#[test]
fn drawings_are_stamped_at_the_cursor() {
    let mut buffer = PietCodeBuffer::new(100, 10);
    buffer.x = 10;
    let pattern = DrawPattern::generate(b"  #\n>...>\n #..\n   #\n", Vec::new()).unwrap();
    assert_eq!(buffer.draw_here(pattern), Ok(()));
    assert_eq!(buffer.x, 13);
    assert_eq!(buffer.last_color, Some(Color::White));
    assert_eq!(at(&buffer, 11, 0), Color::Black);
    assert_eq!(at(&buffer, 10, 1), Color::White);
    assert_eq!(at(&buffer, 12, 1), Color::White);
    assert_eq!(at(&buffer, 10, 2), Color::Black);
    assert_eq!(at(&buffer, 12, 3), Color::Black);
    assert_eq!(at(&buffer, 13, 1), Color::Other);
    // at the right edge there is no room
    buffer.x = 98;
    let before = buffer.code.clone();
    let pattern = DrawPattern::generate(b"  #\n>...>\n #..\n   #\n", Vec::new()).unwrap();
    assert_eq!(buffer.draw_here(pattern), Err(DrawError::OutOfBounds(98, 0)));
    assert_eq!(buffer.code, before);
    // where there is room in a new row, the drawing goes there
    let pattern = DrawPattern::generate(b"  #\n>...>\n #..\n   #\n", Vec::new()).unwrap();
    assert_eq!(buffer.draw(pattern), Ok(()));
    assert_eq!((buffer.x, buffer.y), (5, 10));
    assert_eq!(buffer.height, 20);
}

#[test]
fn a_jump_wire_is_white() {
    let mut buffer = PietCodeBuffer::new(10, 10);
    assert_eq!(buffer.draw_jump(4, 2, 6), Ok(()));
    for y in 2..6 {
        assert_eq!(at(&buffer, 4, y), Color::White);
    }
    assert_eq!(at(&buffer, 4, 1), Color::Other);
    assert_eq!(at(&buffer, 4, 6), Color::Other);
    buffer.draw_pixel(4, 7, RED).unwrap();
    let before = buffer.code.clone();
    assert_eq!(
        buffer.draw_jump(4, 5, 9),
        Err(DrawError::ColorMismatch(Color::White, RED, (4, 7)))
    );
    assert_eq!(buffer.code, before);
}

#[test]
fn blit_lays_a_grid_over_an_area() {
    let mut buffer = PietCodeBuffer::new(3, 2);
    buffer.draw_pixel(0, 0, RED).unwrap();
    let mut source = PietCodeBuffer::new(2, 1);
    source.draw_pixel(0, 0, Color::White).unwrap();
    buffer.draw_pixel(1, 1, RED).unwrap();
    buffer.blit(source, Rect { x: 1, y: 1, width: 2, height: 1 });
    let o = Color::Other;
    assert_eq!(buffer.code, vec![RED, o, o, o, Color::White, o]);
}
