use num_bigint::BigInt;
use piet_tools::assembler::optimizer::{optimize, push, sanitize};
use piet_tools::assembler::parser::{to_bytecode, validate_arg_count, Label};
use piet_tools::assembler::preprocessor::{
    parse_identifier, parse_integer, preprocess, preprocess_line, PreprocToken, Statement, Token,
};
use piet_tools::assembler::AsmCommand::{
    Add, Duplicate, InChar, InNum, Jump, JumpIf, Multiply, Not, OutChar, OutNum, Pop, Roll, Stop,
};
use piet_tools::assembler::{parse, AsmCommand, BuildError, ParseError, ParseErrorType, PietAsm};
use piet_tools::vm::Action;
use piet_tools::walk::Outcome;

fn lines(text: &[&str]) -> Vec<String> {
    text.iter().map(|l| l.to_string()).collect()
}

fn commands(text: &[&str]) -> PietAsm {
    to_bytecode(preprocess(&lines(text)).unwrap()).unwrap()
}

fn parse_error(text: &[&str]) -> ParseError {
    match preprocess(&lines(text)) {
        Err(e) => e,
        Ok(ast) => to_bytecode(ast).unwrap_err(),
    }
}

#[test]
fn test_jump_no_label() {
    let lines = vec!["JUMP NOPE".into()];
    let ast = preprocess(&lines).unwrap();

    assert!(matches!(
        to_bytecode(ast),
        Err(ParseError { error_type: ParseErrorType::MissingLabel(s), .. })
            if s == "NOPE"
    ))
}

#[test]
fn test_double_label() {
    let lines = vec![":TWIN".into(), ":TWIN".into()];
    let ast = preprocess(&lines).unwrap();

    assert!(matches!(
        to_bytecode(ast),
        Err(ParseError { error_type: ParseErrorType::DuplicateLabel(s), .. })
            if s == "TWIN"
    ))
}

#[test]
fn missing_label_is_reported_on_its_first_jump() {
    let e = parse_error(&["PUSH 1", "JUMPIF there", "JUMP there"]);
    assert_eq!(e.lineno, 2);
    assert!(matches!(e.error_type, ParseErrorType::MissingLabel(s) if s == "there"));
}

#[test]
fn double_label_is_reported_on_the_second() {
    let e = parse_error(&[":a", "POP", "", ":a"]);
    assert_eq!(e.lineno, 4);
}

#[test]
fn identifiers() {
    assert_eq!(parse_identifier("_a9Z").unwrap(), "_a9Z");
    assert!(matches!(parse_identifier(""), Err(ParseErrorType::EmptyIdentifier)));
    assert!(matches!(
        parse_identifier("9a"),
        Err(ParseErrorType::InvalidIdentifierFormat(s)) if s == "9a"
    ));
    assert!(matches!(
        parse_identifier("a-b"),
        Err(ParseErrorType::InvalidIdentifierFormat(s)) if s == "a-b"
    ));
    assert!(matches!(
        parse_identifier("é"),
        Err(ParseErrorType::InvalidIdentifierFormat(_))
    ));
}

#[test]
fn integers() {
    assert_eq!(parse_integer("-12").unwrap(), BigInt::from(-12));
    assert_eq!(
        parse_integer("123456789012345678901234567890").unwrap(),
        "123456789012345678901234567890".parse::<BigInt>().unwrap()
    );
    assert!(matches!(
        parse_integer("12a"),
        Err(ParseErrorType::ExpectedInteger(s)) if s == "12a"
    ));
    assert!(matches!(parse_integer(""), Err(ParseErrorType::ExpectedInteger(_))));
}

#[test]
fn tokens() {
    assert!(matches!(Token::from_text("@x").unwrap(), Token::Var(s) if s == "x"));
    assert!(matches!(Token::from_text("@").unwrap(), Token::Var(s) if s.is_empty()));
    assert!(matches!(Token::from_text("-7").unwrap(), Token::Num(n) if n == BigInt::from(-7)));
    assert!(matches!(Token::from_text("loop_1").unwrap(), Token::Label(s) if s == "loop_1"));
    assert!(matches!(
        Token::from_text("1x"),
        Err(ParseErrorType::InvalidIdentifierFormat(s)) if s == "1x"
    ));
    let mut token = Token::from_text("@x").unwrap();
    token.bind("y", &BigInt::from(3));
    assert!(matches!(token, Token::Var(_)));
    token.bind("x", &BigInt::from(3));
    assert!(matches!(token, Token::Num(n) if n == BigInt::from(3)));
}

#[test]
fn argument_counts() {
    assert!(validate_arg_count(1, 0, Some(2)).is_ok());
    assert!(validate_arg_count(5, 1, None).is_ok());
    assert!(matches!(
        validate_arg_count(3, 0, Some(2)),
        Err(ParseErrorType::WrongArgumentCount(3, 0, Some(2)))
    ));
    assert!(matches!(
        validate_arg_count(0, 1, None),
        Err(ParseErrorType::WrongArgumentCount(0, 1, None))
    ));
}

#[test]
fn new_label_knows_no_line() {
    let label = Label::new(4);
    assert_eq!(label.id, 4);
    assert_eq!(label.label_lineno, None);
    assert_eq!(label.jump_lineno, None);
}

#[test]
fn lines_are_read() {
    match preprocess_line("PUSH 1 @n  far", 7).unwrap() {
        PreprocToken::Line(line) => {
            assert_eq!(line.lineno, 7);
            match line.stmt {
                Statement::Cmd { cmd, args } => {
                    assert_eq!(cmd, "PUSH");
                    assert_eq!(args.len(), 3);
                    assert!(matches!(&args[0], Token::Num(n) if *n == BigInt::from(1)));
                    assert!(matches!(&args[1], Token::Var(s) if s == "n"));
                    assert!(matches!(&args[2], Token::Label(s) if s == "far"));
                }
                _ => panic!("a command was expected"),
            }
        }
        _ => panic!("a statement was expected"),
    }
    assert!(matches!(
        preprocess_line(":here", 1).unwrap(),
        PreprocToken::Line(line) if matches!(&line.stmt, Statement::Label(s) if s == "here")
    ));
    assert!(matches!(preprocess_line(":", 1), Err(ParseErrorType::EmptyIdentifier)));
    assert!(matches!(preprocess_line("@END", 1).unwrap(), PreprocToken::End));
    assert!(matches!(
        preprocess_line("@END now", 1),
        Err(ParseErrorType::InvalidPragma(s)) if s == "END now"
    ));
    assert!(matches!(
        preprocess_line("@LOOP 3", 1),
        Err(ParseErrorType::InvalidPragma(s)) if s == "LOOP"
    ));
    assert!(matches!(
        preprocess_line("@EACH x [1 2]", 1),
        Err(ParseErrorType::InvalidPragma(s)) if s == "EACH"
    ));
    assert!(matches!(
        preprocess_line("@EACH x = 1 2", 1),
        Err(ParseErrorType::InvalidPragma(s)) if s == "EACH"
    ));
    assert!(matches!(
        preprocess_line("@EACH x = [", 1),
        Err(ParseErrorType::InvalidPragma(s)) if s == "EACH"
    ));
    assert!(matches!(
        preprocess_line("@EACH 1x = [1]", 1),
        Err(ParseErrorType::InvalidIdentifierFormat(s)) if s == "1x"
    ));
    assert!(matches!(preprocess_line("@EACH = [1]", 1), Err(ParseErrorType::EmptyIdentifier)));
    assert!(matches!(
        preprocess_line("@EACH x = [1 two]", 1),
        Err(ParseErrorType::ExpectedInteger(s)) if s == "two"
    ));
    match preprocess_line("@EACH  n =  [ 1 -2   30 ]", 1).unwrap() {
        PreprocToken::Each(name, terms) => {
            assert_eq!(name, "n");
            assert_eq!(terms, vec![BigInt::from(1), BigInt::from(-2), BigInt::from(30)]);
        }
        _ => panic!("the head of a block was expected"),
    }
    assert!(matches!(
        preprocess_line("@EACH n = []", 1).unwrap(),
        PreprocToken::Each(_, terms) if terms.is_empty()
    ));
}

#[test]
fn comments_and_blank_lines_go() {
    let ast = preprocess(&lines(&["# a comment", "", "   ", "  POP # drop it", "\tDUP"])).unwrap();
    assert_eq!(ast.len(), 2);
    assert_eq!(ast[0].lineno, 4);
    assert_eq!(ast[1].lineno, 5);
}

#[test]
fn blocks_are_written_out() {
    let program = commands(&["@EACH n = [1 2 3]", "PUSH @n", "OUTNUM", "@END", "STOP"]);
    assert_eq!(
        program.cmds,
        vec![push(1), OutNum, push(2), OutNum, push(3), OutNum, Stop]
    );
}

#[test]
fn blocks_nest() {
    let program = commands(&[
        "POP",
        "@EACH a = [1 2]",
        "@EACH b = [7 8]",
        "ADD @a @b",
        "@END",
        "DUP",
        "@END",
    ]);
    assert_eq!(
        program.cmds,
        vec![
            Pop,
            push(1),
            push(7),
            Add,
            push(1),
            push(8),
            Add,
            Duplicate,
            push(2),
            push(7),
            Add,
            push(2),
            push(8),
            Add,
            Duplicate,
        ]
    );
}

#[test]
fn blocks_must_close_and_open() {
    let e = parse_error(&["POP", "@EACH n = [1]", "PUSH @n"]);
    assert_eq!(e.lineno, 2);
    assert!(matches!(e.error_type, ParseErrorType::MissingEnd));
    let e = parse_error(&["POP", "@END"]);
    assert_eq!(e.lineno, 2);
    assert!(matches!(e.error_type, ParseErrorType::ExtraEnd));
}

#[test]
fn commands_take_their_arguments() {
    let program = commands(&[
        "PUSH 1 2",
        "ADD 3 4",
        "MUL 5",
        "NOT 0",
        "ROLL",
        "INNUM",
        "INCHAR",
        "OUTCHAR 65",
    ]);
    assert_eq!(
        program.cmds,
        vec![
            push(1),
            push(2),
            push(3),
            push(4),
            Add,
            push(5),
            Multiply,
            push(0),
            Not,
            Roll,
            InNum,
            InChar,
            push(65),
            OutChar,
        ]
    );
    assert_eq!(program.jump_counts, Vec::<usize>::new());
}

#[test]
fn wrong_arguments_are_refused() {
    assert!(matches!(
        parse_error(&["PUSH"]).error_type,
        ParseErrorType::WrongArgumentCount(0, 1, None)
    ));
    assert!(matches!(
        parse_error(&["POP 1"]).error_type,
        ParseErrorType::WrongArgumentCount(1, 0, Some(0))
    ));
    assert!(matches!(
        parse_error(&["NOT 1 2"]).error_type,
        ParseErrorType::WrongArgumentCount(2, 0, Some(1))
    ));
    assert!(matches!(
        parse_error(&["ADD 1 2 3"]).error_type,
        ParseErrorType::WrongArgumentCount(3, 0, Some(2))
    ));
    assert!(matches!(
        parse_error(&["JUMP"]).error_type,
        ParseErrorType::WrongArgumentCount(0, 1, Some(1))
    ));
    assert!(matches!(parse_error(&["JUMP 3"]).error_type, ParseErrorType::TypeError));
    assert!(matches!(parse_error(&["PUSH here"]).error_type, ParseErrorType::TypeError));
    assert!(matches!(
        parse_error(&["PUSH @n"]).error_type,
        ParseErrorType::UnboundVarError(s) if s == "n"
    ));
    assert!(matches!(
        parse_error(&["push 1"]).error_type,
        ParseErrorType::UnrecognizedCommand(s) if s == "push"
    ));
    assert!(matches!(
        parse_error(&["PUSH 1 ?"]).error_type,
        ParseErrorType::InvalidIdentifierFormat(s) if s == "?"
    ));
}

#[test]
fn labels_are_numbered_and_jumps_counted() {
    let program = commands(&[
        ":top",
        "PUSH 1",
        "JUMPIF end",
        "JUMP top",
        ":end",
        "JUMPIF top",
        "STOP",
    ]);
    assert_eq!(
        program.cmds,
        vec![
            AsmCommand::Label(0),
            push(1),
            Not,
            Not,
            JumpIf(1),
            Jump(0),
            AsmCommand::Label(1),
            Not,
            Not,
            JumpIf(0),
            Stop,
        ]
    );
    assert_eq!(program.jump_counts, vec![2, 1]);
}

#[test]
fn built_program_runs() {
    let code = parse(&lines(&[
        "# counts down from three",
        "PUSH 3",
        ":again",
        "DUP",
        "OUTNUM",
        "SUB 1",
        "DUP",
        "JUMPIF again",
        "POP",
        "STOP",
    ]))
    .unwrap();
    let mut runner = code.execute();
    let mut written = Vec::new();
    let mut halted = false;
    for _ in 0..100_000 {
        match runner.step() {
            Outcome::Halted => {
                halted = true;
                break;
            }
            Outcome::Ran(Action::WriteNumber(n)) => written.push(n),
            Outcome::Ran(_) => {}
            Outcome::Skipped(e) => panic!("command passed over: {:?}", e),
        }
    }
    assert!(halted);
    assert_eq!(written, vec![BigInt::from(3), BigInt::from(2), BigInt::from(1)]);
    assert!(runner.vm.stack.is_empty());
}

#[test]
fn build_errors_say_where_they_come_from() {
    assert!(matches!(
        parse(&lines(&["JUMP nowhere"])),
        Err(BuildError::Parse(ParseError { lineno: 1, .. }))
    ));
    assert!(matches!(
        parse(&lines(&["JUMP later", "PUSH 1", ":later", "STOP"])),
        Err(BuildError::Draw(piet_tools::assembler::buffer::DrawError::Todo))
    ));
}

#[test]
fn jumps_keep_their_labels_and_counts() {
    let program = commands(&[
        ":unused",
        ":top",
        "PUSH -2 1000",
        "JUMP next",
        ":next",
        "JUMPIF top",
        "JUMP top",
    ]);
    let program = sanitize(optimize(program));
    let mut counted = vec![0; program.jump_counts.len()];
    for cmd in &program.cmds {
        if let Jump(id) | JumpIf(id) = cmd {
            counted[*id] += 1;
            assert!(program.cmds.contains(&AsmCommand::Label(*id)));
        }
    }
    assert_eq!(counted, program.jump_counts);
    assert_eq!(program.jump_counts, vec![0, 2, 0]);
    assert!(!program.cmds.contains(&AsmCommand::Label(0)));
    assert!(!program.cmds.contains(&AsmCommand::Label(2)));
    assert!(matches!(program.cmds.last(), Some(Jump(1))));
}

fn run_text(text: &[&str]) -> Vec<BigInt> {
    let code = parse(&lines(text)).unwrap();
    let mut runner = code.execute();
    let mut written = Vec::new();
    for _ in 0..100_000 {
        assert!(runner.is_ready());
        match runner.step() {
            Outcome::Halted => return written,
            Outcome::Ran(Action::WriteNumber(n)) => written.push(n),
            Outcome::Ran(Action::WriteChar(b)) => written.push(BigInt::from(b)),
            Outcome::Ran(_) => {}
            Outcome::Skipped(e) => panic!("command passed over: {:?}", e),
        }
    }
    panic!("the program did not halt");
}

#[test]
fn forward_conditional_jump_is_taken_or_not() {
    let skip = ["JUMPIF skip", "OUTNUM 7", ":skip", "OUTNUM 8", "STOP"];
    let mut taken = vec!["PUSH 1"];
    taken.extend_from_slice(&skip);
    assert_eq!(run_text(&taken), vec![BigInt::from(8)]);
    let mut not_taken = vec!["PUSH 0"];
    not_taken.extend_from_slice(&skip);
    assert_eq!(run_text(&not_taken), vec![BigInt::from(7), BigInt::from(8)]);
}

#[test]
fn two_forward_conditional_jumps_share_a_label() {
    let text = |a: &'static str, b: &'static str| {
        vec![a, "JUMPIF out", "OUTNUM 1", b, "JUMPIF out", "OUTNUM 2", ":out", "OUTNUM 3", "STOP"]
    };
    assert_eq!(
        run_text(&text("PUSH 0", "PUSH 0")),
        vec![BigInt::from(1), BigInt::from(2), BigInt::from(3)]
    );
    assert_eq!(run_text(&text("PUSH 0", "PUSH 5")), vec![BigInt::from(1), BigInt::from(3)]);
    assert_eq!(run_text(&text("PUSH 1", "PUSH 0")), vec![BigInt::from(3)]);
}

#[test]
fn backward_jump_loops() {
    // counts 1 2 3 with a jump back and a conditional jump out
    let out = run_text(&[
        "PUSH 0",
        ":again",
        "ADD 1",
        "DUP",
        "OUTNUM",
        "DUP",
        "GREATER 2",
        "JUMPIF done",
        "JUMP again",
        ":done",
        "STOP",
    ]);
    assert_eq!(out, vec![BigInt::from(1), BigInt::from(2), BigInt::from(3)]);
}

#[test]
fn characters_are_written() {
    assert_eq!(
        run_text(&["@EACH c = [72 105 33]", "OUTCHAR @c", "@END"]),
        vec![BigInt::from(72), BigInt::from(105), BigInt::from(33)]
    );
}
