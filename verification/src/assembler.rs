//! The assembler: from lines of text to a list of commands, and from there
//! to a grid of codels that runs them.

use crate::assembler::buffer::{Canvas, DrawError};
use crate::bigint::{big_eq, big_value};
use crate::grid::PietCode;
use num_bigint::BigInt;
use vstd::prelude::*;

pub mod buffer;
pub mod generator;
pub mod optimizer;
pub mod parser;
pub mod preprocessor;
pub mod text;

verus! {

/// The number of a label.
pub type LabelId = usize;

/// A command of the assembly language.
#[derive(Debug, PartialEq, Eq, Clone)]
pub enum AsmCommand {
    Push(BigInt),
    Pop,
    Add,
    Subtract,
    Multiply,
    Divide,
    Mod,
    Not,
    Greater,
    Duplicate,
    Roll,
    InNum,
    InChar,
    OutNum,
    OutChar,
    Label(LabelId),
    Jump(LabelId),
    JumpIf(LabelId),
    Stop,
}

/// An `AsmCommand` over mathematical integers.
pub enum Instr {
    Push(int),
    Pop,
    Add,
    Subtract,
    Multiply,
    Divide,
    Mod,
    Not,
    Greater,
    Duplicate,
    Roll,
    InNum,
    InChar,
    OutNum,
    OutChar,
    Label(LabelId),
    Jump(LabelId),
    JumpIf(LabelId),
    Stop,
}

impl View for AsmCommand {
    type V = Instr;

    open spec fn view(&self) -> Instr {
        match self {
            AsmCommand::Push(n) => Instr::Push(big_value(*n)),
            AsmCommand::Pop => Instr::Pop,
            AsmCommand::Add => Instr::Add,
            AsmCommand::Subtract => Instr::Subtract,
            AsmCommand::Multiply => Instr::Multiply,
            AsmCommand::Divide => Instr::Divide,
            AsmCommand::Mod => Instr::Mod,
            AsmCommand::Not => Instr::Not,
            AsmCommand::Greater => Instr::Greater,
            AsmCommand::Duplicate => Instr::Duplicate,
            AsmCommand::Roll => Instr::Roll,
            AsmCommand::InNum => Instr::InNum,
            AsmCommand::InChar => Instr::InChar,
            AsmCommand::OutNum => Instr::OutNum,
            AsmCommand::OutChar => Instr::OutChar,
            AsmCommand::Label(id) => Instr::Label(*id),
            AsmCommand::Jump(id) => Instr::Jump(*id),
            AsmCommand::JumpIf(id) => Instr::JumpIf(*id),
            AsmCommand::Stop => Instr::Stop,
        }
    }
}

/// The commands that a list of `AsmCommand` stands for.
pub open spec fn instrs(cmds: Seq<AsmCommand>) -> Seq<Instr> {
    cmds.map_values(|c: AsmCommand| c@)
}

/// An assembled program: its commands, and for each label the number of
/// jumps to it.
#[derive(Debug)]
pub struct PietAsm {
    pub cmds: Vec<AsmCommand>,
    pub jump_counts: Vec<usize>,
}

impl AsmCommand {
    /// A copy of the command.
    pub fn copy(&self) -> (r: AsmCommand)
        ensures
            r@ == self@,
    {
        match self {
            AsmCommand::Push(n) => AsmCommand::Push(n.clone()),
            AsmCommand::Pop => AsmCommand::Pop,
            AsmCommand::Add => AsmCommand::Add,
            AsmCommand::Subtract => AsmCommand::Subtract,
            AsmCommand::Multiply => AsmCommand::Multiply,
            AsmCommand::Divide => AsmCommand::Divide,
            AsmCommand::Mod => AsmCommand::Mod,
            AsmCommand::Not => AsmCommand::Not,
            AsmCommand::Greater => AsmCommand::Greater,
            AsmCommand::Duplicate => AsmCommand::Duplicate,
            AsmCommand::Roll => AsmCommand::Roll,
            AsmCommand::InNum => AsmCommand::InNum,
            AsmCommand::InChar => AsmCommand::InChar,
            AsmCommand::OutNum => AsmCommand::OutNum,
            AsmCommand::OutChar => AsmCommand::OutChar,
            AsmCommand::Label(id) => AsmCommand::Label(*id),
            AsmCommand::Jump(id) => AsmCommand::Jump(*id),
            AsmCommand::JumpIf(id) => AsmCommand::JumpIf(*id),
            AsmCommand::Stop => AsmCommand::Stop,
        }
    }

    /// Whether both are pushes of the same number.
    pub fn same_push(&self, other: &AsmCommand) -> (r: bool)
        ensures
            r == (self@ is Push && self@ == other@),
    {
        match (self, other) {
            (AsmCommand::Push(a), AsmCommand::Push(b)) => big_eq(a, b),
            _ => false,
        }
    }
}

impl Instr {
    /// The label that the command defines or jumps to.
    pub open spec fn target(self) -> Option<LabelId> {
        match self {
            Instr::Label(id) => Some(id),
            Instr::Jump(id) => Some(id),
            Instr::JumpIf(id) => Some(id),
            _ => None,
        }
    }

    /// Whether the command is a jump to `id`, conditional or not.
    pub open spec fn jumps_to(self, id: LabelId) -> bool {
        self == Instr::Jump(id) || self == Instr::JumpIf(id)
    }
}

/// How many jumps to `id` there are among `s`.
pub open spec fn jump_count(s: Seq<Instr>, id: LabelId) -> nat
    decreases s.len(),
{
    if s.len() == 0 {
        0
    } else {
        jump_count(s.drop_last(), id) + if s.last().jumps_to(id) {
            1nat
        } else {
            0nat
        }
    }
}

/// Whether `counts` holds, for each label that `s` names, the number of jumps
/// to it.
pub open spec fn counts_match(s: Seq<Instr>, counts: Seq<usize>) -> bool {
    &&& forall|i: int|
        0 <= i < s.len() && (#[trigger] s[i]).target().is_some() ==> s[i].target().unwrap()
            < counts.len()
    &&& forall|id: LabelId| id < counts.len() ==> #[trigger] counts[id as int] == jump_count(s, id)
}

/// Whether every jump of `s` goes to a label that `s` defines.
pub open spec fn labels_present(s: Seq<Instr>) -> bool {
    forall|i: int|
        0 <= i < s.len() && ((#[trigger] s[i]) is Jump || s[i] is JumpIf) ==> s.contains(
            Instr::Label(s[i].target().unwrap()),
        )
}

impl PietAsm {
    /// Every jump goes to a label that the program defines.
    pub open spec fn linked(self) -> bool {
        labels_present(self.instrs())
    }

    /// The commands over mathematical integers.
    pub open spec fn instrs(self) -> Seq<Instr> {
        instrs(self.cmds@)
    }

    /// The jump counts are those of the commands.
    pub open spec fn wf(self) -> bool {
        counts_match(self.instrs(), self.jump_counts@)
    }
}

/// Whether the command counts as a jump to `id`: one or nought.
pub open spec fn jump_weight(c: Instr, id: LabelId) -> nat {
    if c.jumps_to(id) {
        1
    } else {
        0
    }
}

/// Removing a command takes it out of the count of jumps.
pub proof fn lemma_jump_count_remove(s: Seq<Instr>, i: int, id: LabelId)
    requires
        0 <= i < s.len(),
    ensures
        jump_count(s.remove(i), id) + jump_weight(s[i], id) == jump_count(s, id),
    decreases s.len(),
{
    if i == s.len() - 1 {
        assert(s.remove(i) =~= s.drop_last());
    } else {
        assert(s.remove(i).drop_last() =~= s.drop_last().remove(i));
        assert(s.remove(i).last() == s.last());
        lemma_jump_count_remove(s.drop_last(), i, id);
    }
}

/// Replacing a command swaps it in the count of jumps.
pub proof fn lemma_jump_count_update(s: Seq<Instr>, i: int, c: Instr, id: LabelId)
    requires
        0 <= i < s.len(),
    ensures
        jump_count(s.update(i, c), id) + jump_weight(s[i], id) == jump_count(s, id) + jump_weight(
            c,
            id,
        ),
    decreases s.len(),
{
    if i == s.len() - 1 {
        assert(s.update(i, c).drop_last() =~= s.drop_last());
    } else {
        assert(s.update(i, c).drop_last() =~= s.drop_last().update(i, c));
        lemma_jump_count_update(s.drop_last(), i, c, id);
    }
}

/// The jumps of two lists in a row are those of the one and those of the
/// other.
pub proof fn lemma_jump_count_concat(a: Seq<Instr>, b: Seq<Instr>, id: LabelId)
    ensures
        jump_count(a + b, id) == jump_count(a, id) + jump_count(b, id),
    decreases b.len(),
{
    if b.len() == 0 {
        assert(a + b =~= a);
    } else {
        assert((a + b).drop_last() =~= a + b.drop_last());
        lemma_jump_count_concat(a, b.drop_last(), id);
    }
}

/// Why a program could not be read.
#[derive(Debug)]
pub enum ParseErrorType {
    EmptyIdentifier,
    InvalidIdentifierFormat(String),
    UnrecognizedCommand(String),
    /// The number of arguments found, the least allowed, and the most.
    WrongArgumentCount(usize, usize, Option<usize>),
    ExpectedInteger(String),
    MissingLabel(String),
    DuplicateLabel(String),
    UnboundVarError(String),
    InvalidPragma(String),
    MissingEnd,
    ExtraEnd,
    TypeError,
}

/// A `ParseErrorType` over sequences of characters.
pub enum ParseFault {
    EmptyIdentifier,
    InvalidIdentifierFormat(Seq<char>),
    UnrecognizedCommand(Seq<char>),
    WrongArgumentCount(usize, usize, Option<usize>),
    ExpectedInteger(Seq<char>),
    MissingLabel(Seq<char>),
    DuplicateLabel(Seq<char>),
    UnboundVarError(Seq<char>),
    InvalidPragma(Seq<char>),
    MissingEnd,
    ExtraEnd,
    TypeError,
}

impl View for ParseErrorType {
    type V = ParseFault;

    open spec fn view(&self) -> ParseFault {
        match self {
            ParseErrorType::EmptyIdentifier => ParseFault::EmptyIdentifier,
            ParseErrorType::InvalidIdentifierFormat(s) => ParseFault::InvalidIdentifierFormat(s@),
            ParseErrorType::UnrecognizedCommand(s) => ParseFault::UnrecognizedCommand(s@),
            ParseErrorType::WrongArgumentCount(n, min, max) => ParseFault::WrongArgumentCount(
                *n,
                *min,
                *max,
            ),
            ParseErrorType::ExpectedInteger(s) => ParseFault::ExpectedInteger(s@),
            ParseErrorType::MissingLabel(s) => ParseFault::MissingLabel(s@),
            ParseErrorType::DuplicateLabel(s) => ParseFault::DuplicateLabel(s@),
            ParseErrorType::UnboundVarError(s) => ParseFault::UnboundVarError(s@),
            ParseErrorType::InvalidPragma(s) => ParseFault::InvalidPragma(s@),
            ParseErrorType::MissingEnd => ParseFault::MissingEnd,
            ParseErrorType::ExtraEnd => ParseFault::ExtraEnd,
            ParseErrorType::TypeError => ParseFault::TypeError,
        }
    }
}

/// Why a program could not be read, and on which line.
#[derive(Debug)]
pub struct ParseError {
    pub lineno: usize,
    pub error_type: ParseErrorType,
}

impl View for ParseError {
    type V = (usize, ParseFault);

    open spec fn view(&self) -> (usize, ParseFault) {
        (self.lineno, self.error_type@)
    }
}

impl ParseErrorType {
    /// The error, found on the line `lineno`.
    pub fn at(self, lineno: usize) -> (r: ParseError)
        ensures
            r@ == (lineno, self@),
    {
        ParseError { lineno, error_type: self }
    }
}

/// Why a program could not be built.
#[derive(Debug)]
pub enum BuildError {
    /// The text could not be read.
    Parse(ParseError),
    /// The commands could not be laid out.
    Draw(DrawError),
}

/// A `BuildError` as a mathematical value.
pub enum BuildFault {
    Parse(usize, ParseFault),
    Draw(DrawError),
}

impl View for BuildError {
    type V = BuildFault;

    open spec fn view(&self) -> BuildFault {
        match self {
            BuildError::Parse(e) => BuildFault::Parse(e.lineno, e.error_type@),
            BuildError::Draw(e) => BuildFault::Draw(*e),
        }
    }
}

/// The canvas that the lines of a program are built into, or why they
/// cannot be: the lines are preprocessed and parsed, the commands optimized
/// and sanitized, and the result laid out.
pub open spec fn assembled(lines: Seq<Seq<char>>) -> Result<Canvas, BuildFault> {
    match preprocessor::preprocessed(lines) {
        Err(e) => Err(BuildFault::Parse(e.0, e.1)),
        Ok(statements) => match parser::parsed(statements) {
            Err(e) => Err(BuildFault::Parse(e.0, e.1)),
            Ok((s, counts)) => {
                let better = optimizer::optimized(s, counts);
                match generator::generated(optimizer::sanitized(better.0), better.1) {
                    Ok(canvas) => Ok(canvas),
                    Err(e) => Err(BuildFault::Draw(e)),
                }
            },
        },
    }
}

/// Builds the lines of a program into a grid of codels that runs it.
pub fn parse(lines: &[String]) -> (r: Result<PietCode, BuildError>)
    ensures
        match r {
            Ok(code) => assembled(preprocessor::texts(lines@)) == Ok::<Canvas, BuildFault>(
                Canvas {
                    width: code.spec_width() as int,
                    height: code.spec_height() as int,
                    cells: code.cells(),
                },
            ),
            Err(e) => assembled(preprocessor::texts(lines@)) == Err::<Canvas, BuildFault>(e@),
        },
{
    let ast = match preprocessor::preprocess(lines) {
        Ok(ast) => ast,
        Err(e) => {
            return Err(BuildError::Parse(e));
        },
    };
    let program = match parser::to_bytecode(ast) {
        Ok(program) => program,
        Err(e) => {
            return Err(BuildError::Parse(e));
        },
    };
    let program = optimizer::optimize(program);
    let program = optimizer::sanitize(program);
    match generator::generate(program) {
        Ok(code) => Ok(code),
        Err(e) => Err(BuildError::Draw(e)),
    }
}

} // verus!
