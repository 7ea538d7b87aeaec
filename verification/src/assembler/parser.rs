//! The parser: from statements to commands, with the labels numbered and
//! the jumps to each counted.

use crate::assembler::optimizer::{lemma_instrs_push, lemma_no_jumps};
use crate::assembler::{jump_weight, labels_present, lemma_jump_count_concat};
use crate::assembler::preprocessor::{
    line_views, same_text, token_views, Line, LineView, Statement, StatementView, Token, TokenView,
};
use crate::assembler::{
    counts_match, instrs, jump_count, AsmCommand, Instr, LabelId, ParseError, ParseErrorType,
    ParseFault, PietAsm,
};
use crate::bigint::big_value;
use crate::vm::values;
use num_bigint::BigInt;
use vstd::prelude::*;

verus! {

/// The number of a line.
pub type LineNo = usize;

/// What is known of a label: its number, the line that defines it, and the
/// first line that jumps to it.
#[derive(Debug)]
pub struct Label {
    pub id: LabelId,
    pub label_lineno: Option<LineNo>,
    pub jump_lineno: Option<LineNo>,
}

impl Label {
    /// A label that is neither defined nor jumped to yet.
    pub fn new(id: LabelId) -> (r: Label)
        ensures
            r.id == id,
            r.label_lineno.is_none(),
            r.jump_lineno.is_none(),
    {
        Label { id, label_lineno: None, jump_lineno: None }
    }
}

/// Checks that the number of arguments lies between the least and the most
/// allowed.
pub fn validate_arg_count(count: usize, min: usize, max: Option<usize>) -> (r: Result<
    (),
    ParseErrorType,
>)
    ensures
        match r {
            Ok(_) => count_allowed(count, min, max),
            Err(e) => !count_allowed(count, min, max) && e@ == ParseFault::WrongArgumentCount(
                count,
                min,
                max,
            ),
        },
{
    let below = match max {
        Some(mx) => count <= mx,
        None => true,
    };
    if min <= count && below {
        return Ok(());
    }
    Err(ParseErrorType::WrongArgumentCount(count, min, max))
}

/// Whether `count` lies between `min` and `max`, where there is a most.
pub open spec fn count_allowed(count: usize, min: usize, max: Option<usize>) -> bool {
    min <= count && (max.is_some() ==> count <= max.unwrap())
}

/// The integers that the first `n` of `args` are, or why the first that is
/// none is none: a variable is unbound, a label of the wrong type.
pub open spec fn integers_from(args: Seq<TokenView>, n: nat) -> Result<Seq<int>, ParseFault>
    decreases n,
{
    if n == 0 {
        Ok(Seq::empty())
    } else {
        match integers_from(args, (n - 1) as nat) {
            Err(e) => Err(e),
            Ok(out) => match args[n - 1] {
                TokenView::Num(v) => Ok(out.push(v)),
                TokenView::Var(name) => Err(ParseFault::UnboundVarError(name)),
                TokenView::Label(_) => Err(ParseFault::TypeError),
            },
        }
    }
}

/// Once an argument is no integer, the arguments fail the same way however
/// many are looked at.
pub proof fn lemma_integers_from_error_stays(args: Seq<TokenView>, n: nat, m: nat)
    requires
        n <= m,
        integers_from(args, n) is Err,
    ensures
        integers_from(args, m) == integers_from(args, n),
    decreases m,
{
    if n < m {
        lemma_integers_from_error_stays(args, n, (m - 1) as nat);
    }
}

/// The integers that `args` are, which must be between `min` and `max` in
/// number.
pub open spec fn valid_integers(args: Seq<TokenView>, min: usize, max: Option<usize>) -> Result<
    Seq<int>,
    ParseFault,
> {
    if !count_allowed(args.len() as usize, min, max) {
        Err(ParseFault::WrongArgumentCount(args.len() as usize, min, max))
    } else {
        integers_from(args, args.len())
    }
}

/// The label that `args` is, which must be one argument.
pub open spec fn valid_label(args: Seq<TokenView>) -> Result<Seq<char>, ParseFault> {
    if args.len() != 1 {
        Err(ParseFault::WrongArgumentCount(args.len() as usize, 1, Some(1usize)))
    } else {
        match args[0] {
            TokenView::Label(name) => Ok(name),
            TokenView::Var(name) => Err(ParseFault::UnboundVarError(name)),
            TokenView::Num(_) => Err(ParseFault::TypeError),
        }
    }
}

/// Checks the number of the arguments and takes each as an integer.
pub fn validate_integers(args: Vec<Token>, min: usize, max: Option<usize>) -> (r: Result<
    Vec<BigInt>,
    ParseErrorType,
>)
    ensures
        match r {
            Ok(out) => valid_integers(token_views(args@), min, max) == Ok::<Seq<int>, ParseFault>(
                values(out@),
            ),
            Err(e) => valid_integers(token_views(args@), min, max) == Err::<Seq<int>, ParseFault>(
                e@,
            ),
        },
{
    let ghost views = token_views(args@);
    match validate_arg_count(args.len(), min, max) {
        Ok(_) => {},
        Err(e) => {
            return Err(e);
        },
    }
    let mut rest = args;
    let n = rest.len();
    let mut out: Vec<BigInt> = Vec::new();
    let mut i: usize = 0;
    assert(values(out@) =~= Seq::<int>::empty());
    while i < n
        invariant
            i <= n,
            n == rest@.len(),
            views == token_views(args@),
            views.len() == n,
            count_allowed(n, min, max),
            forall|k: int| i <= k < n ==> (#[trigger] rest@[k])@ == views[k],
            integers_from(views, i as nat) == Ok::<Seq<int>, ParseFault>(values(out@)),
        decreases n - i,
    {
        let mut token = Token::Label(String::new());
        std::mem::swap(&mut token, &mut rest[i]);
        match token.into_integer() {
            Ok(v) => {
                assert(values(out@.push(v)) =~= values(out@).push(big_value(v)));
                out.push(v);
            },
            Err(e) => {
                proof {
                    assert(integers_from(views, (i + 1) as nat) == Err::<Seq<int>, ParseFault>(
                        e@,
                    ));
                    lemma_integers_from_error_stays(views, (i + 1) as nat, views.len());
                }
                return Err(e);
            },
        }
        i += 1;
    }
    Ok(out)
}

/// Checks that there is one argument and takes it as a label.
pub fn validate_label(args: Vec<Token>) -> (r: Result<String, ParseErrorType>)
    ensures
        match r {
            Ok(name) => valid_label(token_views(args@)) == Ok::<Seq<char>, ParseFault>(name@),
            Err(e) => valid_label(token_views(args@)) == Err::<Seq<char>, ParseFault>(e@),
        },
{
    match validate_arg_count(args.len(), 1, Some(1)) {
        Ok(_) => {},
        Err(e) => {
            return Err(e);
        },
    }
    let mut rest = args;
    assert(token_views(args@)[0] == args@[0]@);
    match rest.pop() {
        Some(token) => token.into_label(),
        None => Err(ParseErrorType::TypeError),
    }
}

/// What is known of a label, as a mathematical value.
pub struct LabelView {
    pub name: Seq<char>,
    pub label_lineno: Option<LineNo>,
    pub jump_lineno: Option<LineNo>,
}

/// How far the parser has come: the commands so far, the labels met, each
/// numbered by its place, and the jumps to each.
pub struct Parsing {
    pub cmds: Seq<Instr>,
    pub labels: Seq<LabelView>,
    pub counts: Seq<usize>,
}

/// The place of the label `name` among the first `n` of `labels`.
pub open spec fn label_index(labels: Seq<LabelView>, name: Seq<char>, n: nat) -> Option<int>
    decreases n,
{
    if n == 0 {
        None
    } else {
        match label_index(labels, name, (n - 1) as nat) {
            Some(i) => Some(i),
            None => if labels[n - 1].name == name {
                Some(n - 1)
            } else {
                None
            },
        }
    }
}

/// The place of the first among the first `n` of `labels` that no line
/// defines.
pub open spec fn missing_label(labels: Seq<LabelView>, n: nat) -> Option<int>
    decreases n,
{
    if n == 0 {
        None
    } else {
        match missing_label(labels, (n - 1) as nat) {
            Some(i) => Some(i),
            None => if labels[n - 1].label_lineno.is_none() {
                Some(n - 1)
            } else {
                None
            },
        }
    }
}

/// Pushes of `vals`, one after the other.
pub open spec fn pushes(vals: Seq<int>) -> Seq<Instr> {
    vals.map_values(|v: int| Instr::Push(v))
}

/// What a command that takes integers allows and does: the least and the
/// most number of arguments, each of which is pushed, and the command that
/// follows the pushes, if any. `None` for any other word.
pub open spec fn plain_command(cmd: Seq<char>) -> Option<(usize, Option<usize>, Option<Instr>)> {
    if cmd == "PUSH"@ {
        Some((1, None, None))
    } else if cmd == "POP"@ {
        Some((0, Some(0usize), Some(Instr::Pop)))
    } else if cmd == "DUP"@ {
        Some((0, Some(0usize), Some(Instr::Duplicate)))
    } else if cmd == "INNUM"@ {
        Some((0, Some(0usize), Some(Instr::InNum)))
    } else if cmd == "INCHAR"@ {
        Some((0, Some(0usize), Some(Instr::InChar)))
    } else if cmd == "STOP"@ {
        Some((0, Some(0usize), Some(Instr::Stop)))
    } else if cmd == "NOT"@ {
        Some((0, Some(1usize), Some(Instr::Not)))
    } else if cmd == "OUTNUM"@ {
        Some((0, Some(1usize), Some(Instr::OutNum)))
    } else if cmd == "OUTCHAR"@ {
        Some((0, Some(1usize), Some(Instr::OutChar)))
    } else if cmd == "ADD"@ {
        Some((0, Some(2usize), Some(Instr::Add)))
    } else if cmd == "SUB"@ {
        Some((0, Some(2usize), Some(Instr::Subtract)))
    } else if cmd == "MUL"@ {
        Some((0, Some(2usize), Some(Instr::Multiply)))
    } else if cmd == "DIV"@ {
        Some((0, Some(2usize), Some(Instr::Divide)))
    } else if cmd == "MOD"@ {
        Some((0, Some(2usize), Some(Instr::Mod)))
    } else if cmd == "GREATER"@ {
        Some((0, Some(2usize), Some(Instr::Greater)))
    } else if cmd == "ROLL"@ {
        Some((0, Some(2usize), Some(Instr::Roll)))
    } else {
        None
    }
}

impl Parsing {
    /// The parsing with the label `name` among its labels, and the number of
    /// that label: a label not met before gets the next number.
    pub open spec fn interned(self, name: Seq<char>) -> (Parsing, int) {
        match label_index(self.labels, name, self.labels.len()) {
            Some(i) => (self, i),
            None => (
                Parsing {
                    labels: self.labels.push(
                        LabelView { name, label_lineno: None, jump_lineno: None },
                    ),
                    counts: self.counts.push(0),
                    ..self
                },
                self.labels.len() as int,
            ),
        }
    }

    /// After a jump to `name` on the line `lineno`: the label is numbered,
    /// the line noted if it is the first that jumps to it, and the jump
    /// counted. A conditional jump is preceded by two negations, which leave
    /// one or nought of what is tested.
    pub open spec fn jump(self, name: Seq<char>, lineno: LineNo, conditional: bool) -> Parsing {
        let (p, id) = self.interned(name);
        let l = p.labels[id];
        Parsing {
            cmds: if conditional {
                self.cmds + seq![Instr::Not, Instr::Not, Instr::JumpIf(id as usize)]
            } else {
                self.cmds.push(Instr::Jump(id as usize))
            },
            labels: p.labels.update(
                id,
                LabelView {
                    jump_lineno: if l.jump_lineno.is_none() {
                        Some(lineno)
                    } else {
                        l.jump_lineno
                    },
                    ..l
                },
            ),
            counts: p.counts.update(id, (p.counts[id] + 1) as usize),
        }
    }

    /// After the definition of the label `name` on the line `lineno`; a
    /// label may be defined once only.
    pub open spec fn define(self, name: Seq<char>, lineno: LineNo) -> Result<Parsing, ParseFault> {
        let (p, id) = self.interned(name);
        let l = p.labels[id];
        if l.label_lineno.is_some() {
            Err(ParseFault::DuplicateLabel(name))
        } else {
            Ok(
                Parsing {
                    cmds: self.cmds.push(Instr::Label(id as usize)),
                    labels: p.labels.update(id, LabelView { label_lineno: Some(lineno), ..l }),
                    counts: p.counts,
                },
            )
        }
    }

    /// After one more statement.
    pub open spec fn step(self, line: LineView) -> Result<Parsing, ParseFault> {
        match line.stmt {
            StatementView::Label(name) => self.define(name, line.lineno),
            StatementView::Cmd { cmd, args } => match plain_command(cmd) {
                Some((min, max, op)) => match valid_integers(args, min, max) {
                    Err(e) => Err(e),
                    Ok(vals) => Ok(
                        Parsing {
                            cmds: self.cmds + pushes(vals) + match op {
                                Some(c) => seq![c],
                                None => Seq::empty(),
                            },
                            ..self
                        },
                    ),
                },
                None => if cmd == "JUMP"@ || cmd == "JUMPIF"@ {
                    match valid_label(args) {
                        Err(e) => Err(e),
                        Ok(name) => Ok(self.jump(name, line.lineno, cmd == "JUMPIF"@)),
                    }
                } else {
                    Err(ParseFault::UnrecognizedCommand(cmd))
                },
            },
        }
    }

    /// After the first `n` of `lines`, or why the first that fails cannot be
    /// parsed, with its line.
    pub open spec fn run(lines: Seq<LineView>, n: nat) -> Result<Parsing, (usize, ParseFault)>
        decreases n,
    {
        if n == 0 {
            Ok(Parsing { cmds: Seq::empty(), labels: Seq::empty(), counts: Seq::empty() })
        } else {
            match Parsing::run(lines, (n - 1) as nat) {
                Err(e) => Err(e),
                Ok(p) => match p.step(lines[n - 1]) {
                    Ok(q) => Ok(q),
                    Err(e) => Err((lines[n - 1].lineno, e)),
                },
            }
        }
    }
}

/// The commands and jump counts that `lines` come to, or why they cannot be
/// parsed. A label that is jumped to and nowhere defined is an error on the
/// first line that jumps to it; of several such the first met is reported.
pub open spec fn parsed(lines: Seq<LineView>) -> Result<(Seq<Instr>, Seq<usize>), (usize, ParseFault)> {
    match Parsing::run(lines, lines.len()) {
        Err(e) => Err(e),
        Ok(p) => match missing_label(p.labels, p.labels.len()) {
            Some(i) => Err(
                (
                    match p.labels[i].jump_lineno {
                        Some(lineno) => lineno,
                        None => 0,
                    },
                    ParseFault::MissingLabel(p.labels[i].name),
                ),
            ),
            None => Ok((p.cmds, p.counts)),
        },
    }
}

/// Once a statement cannot be parsed, the statements fail the same way
/// however many are parsed.
pub proof fn lemma_parse_error_stays(lines: Seq<LineView>, n: nat, m: nat)
    requires
        n <= m,
        Parsing::run(lines, n) is Err,
    ensures
        Parsing::run(lines, m) == Parsing::run(lines, n),
    decreases m,
{
    if n < m {
        lemma_parse_error_stays(lines, n, (m - 1) as nat);
    }
}

/// The jumps to a label are no more than the commands.
pub proof fn lemma_jump_count_bound(s: Seq<Instr>, id: LabelId)
    ensures
        jump_count(s, id) <= s.len(),
    decreases s.len(),
{
    if s.len() > 0 {
        lemma_jump_count_bound(s.drop_last(), id);
    }
}

/// A label with its name.
#[derive(Debug)]
pub struct LabelEntry {
    pub name: String,
    pub label: Label,
}

impl View for LabelEntry {
    type V = LabelView;

    open spec fn view(&self) -> LabelView {
        LabelView {
            name: self.name@,
            label_lineno: self.label.label_lineno,
            jump_lineno: self.label.jump_lineno,
        }
    }
}

/// The views of a list of labels.
pub open spec fn label_views(labels: Seq<LabelEntry>) -> Seq<LabelView> {
    labels.map_values(|l: LabelEntry| l@)
}

/// The parser at work: the commands so far, the labels met, and the jumps
/// to each.
pub struct ParseContext {
    pub cmds: Vec<AsmCommand>,
    pub global_label_id: LabelId,
    pub labels: Vec<LabelEntry>,
    pub jump_counts: Vec<usize>,
}

impl View for ParseContext {
    type V = Parsing;

    open spec fn view(&self) -> Parsing {
        Parsing {
            cmds: instrs(self.cmds@),
            labels: label_views(self.labels@),
            counts: self.jump_counts@,
        }
    }
}

impl ParseContext {
    /// Each label has its place as its number and a count of its jumps, and
    /// the counts are those of the commands.
    pub open spec fn wf(self) -> bool {
        &&& self.labels@.len() == self.global_label_id
        &&& self.jump_counts@.len() == self.global_label_id
        &&& forall|i: int| 0 <= i < self.labels@.len() ==> (#[trigger] self.labels@[i]).label.id == i
        &&& counts_match(instrs(self.cmds@), self.jump_counts@)
    }

    /// A parser that has met nothing yet.
    pub fn new() -> (r: ParseContext)
        ensures
            r.wf(),
            r@ == (Parsing { cmds: Seq::empty(), labels: Seq::empty(), counts: Seq::empty() }),
    {
        let r = ParseContext {
            cmds: Vec::new(),
            global_label_id: 0,
            labels: Vec::new(),
            jump_counts: Vec::new(),
        };
        assert(instrs(r.cmds@) =~= Seq::<Instr>::empty());
        assert(label_views(r.labels@) =~= Seq::<LabelView>::empty());
        assert(r.jump_counts@ =~= Seq::<usize>::empty());
        r
    }

    /// The number of the label `label_name`, which gets the next number if
    /// it was not met before.
    pub fn get_label(&mut self, label_name: String) -> (r: LabelId)
        requires
            old(self).wf(),
        ensures
            final(self).wf(),
            (final(self)@, r as int) == old(self)@.interned(label_name@),
            r < final(self).labels@.len(),
            final(self).cmds == old(self).cmds,
    {
        let ghost views = label_views(self.labels@);
        let mut i: usize = 0;
        while i < self.labels.len()
            invariant
                i <= self.labels@.len(),
                *self == *old(self),
                self.wf(),
                views == label_views(self.labels@),
                label_index(views, label_name@, i as nat).is_none(),
            decreases self.labels.len() - i,
        {
            assert(views[i as int] == self.labels@[i as int]@);
            if same_text(self.labels[i].name.as_str(), label_name.as_str()) {
                proof {
                    lemma_label_index_found(views, label_name@, i as int, views.len());
                }
                return i;
            }
            i += 1;
        }
        let id = self.global_label_id;
        let entry = LabelEntry { name: label_name, label: Label::new(id) };
        proof {
            assert(label_views(self.labels@.push(entry)) =~= views.push(entry@));
            let s = instrs(self.cmds@);
            let counts = self.jump_counts@.push(0);
            assert forall|k: LabelId| k < counts.len() implies #[trigger] counts[k as int]
                == jump_count(s, k) by {
                if k == id {
                    lemma_no_jump_to_new(s, self.jump_counts@, k);
                }
            }
        }
        self.labels.push(entry);
        self.jump_counts.push(0);
        self.global_label_id = self.labels.len();
        id
    }
}

/// A label found at `i` and not before is the label's place.
pub proof fn lemma_label_index_found(labels: Seq<LabelView>, name: Seq<char>, i: int, n: nat)
    requires
        0 <= i < n <= labels.len(),
        labels[i].name == name,
        label_index(labels, name, i as nat).is_none(),
    ensures
        label_index(labels, name, n) == Some(i),
    decreases n,
{
    if n > i + 1 {
        lemma_label_index_found(labels, name, i, (n - 1) as nat);
    }
}

/// Where the counts are right, no command jumps to a label beyond them.
pub proof fn lemma_no_jump_to_new(s: Seq<Instr>, counts: Seq<usize>, id: LabelId)
    requires
        counts_match(s, counts),
        id >= counts.len(),
    ensures
        jump_count(s, id) == 0,
{
    lemma_no_jump_to_target_free(s, counts.len() as int, id);
}

/// A list whose targets all lie below a bound has no jump to a label at or
/// beyond it.
pub proof fn lemma_no_jump_to_target_free(s: Seq<Instr>, bound: int, id: LabelId)
    requires
        id >= bound,
        forall|k: int|
            0 <= k < s.len() ==> (#[trigger] s[k]).target().is_some() ==> s[k].target().unwrap()
                < bound,
    ensures
        jump_count(s, id) == 0,
    decreases s.len(),
{
    if s.len() > 0 {
        let rest = s.drop_last();
        assert(s[s.len() - 1] == s.last());
        assert forall|k: int|
            0 <= k < rest.len() && (#[trigger] rest[k]).target().is_some() implies rest[k].target().unwrap()
            < bound by {
            assert(rest[k] == s[k]);
        }
        lemma_no_jump_to_target_free(rest, bound, id);
    }
}

/// What a command that takes integers allows and does; `None` for any other
/// word.
pub fn plain_command_of(cmd: &str) -> (r: Option<(usize, Option<usize>, Option<AsmCommand>)>)
    ensures
        match r {
            Some((min, max, op)) => plain_command(cmd@) == Some(
                (
                    min,
                    max,
                    match op {
                        Some(c) => Some(c@),
                        None => None,
                    },
                ),
            ) && (op.is_some() ==> op.unwrap()@.target().is_none() && !(op.unwrap()@ is Push)),
            None => plain_command(cmd@).is_none(),
        },
{
    if same_text(cmd, "PUSH") {
        Some((1, None, None))
    } else if same_text(cmd, "POP") {
        Some((0, Some(0), Some(AsmCommand::Pop)))
    } else if same_text(cmd, "DUP") {
        Some((0, Some(0), Some(AsmCommand::Duplicate)))
    } else if same_text(cmd, "INNUM") {
        Some((0, Some(0), Some(AsmCommand::InNum)))
    } else if same_text(cmd, "INCHAR") {
        Some((0, Some(0), Some(AsmCommand::InChar)))
    } else if same_text(cmd, "STOP") {
        Some((0, Some(0), Some(AsmCommand::Stop)))
    } else if same_text(cmd, "NOT") {
        Some((0, Some(1), Some(AsmCommand::Not)))
    } else if same_text(cmd, "OUTNUM") {
        Some((0, Some(1), Some(AsmCommand::OutNum)))
    } else if same_text(cmd, "OUTCHAR") {
        Some((0, Some(1), Some(AsmCommand::OutChar)))
    } else if same_text(cmd, "ADD") {
        Some((0, Some(2), Some(AsmCommand::Add)))
    } else if same_text(cmd, "SUB") {
        Some((0, Some(2), Some(AsmCommand::Subtract)))
    } else if same_text(cmd, "MUL") {
        Some((0, Some(2), Some(AsmCommand::Multiply)))
    } else if same_text(cmd, "DIV") {
        Some((0, Some(2), Some(AsmCommand::Divide)))
    } else if same_text(cmd, "MOD") {
        Some((0, Some(2), Some(AsmCommand::Mod)))
    } else if same_text(cmd, "GREATER") {
        Some((0, Some(2), Some(AsmCommand::Greater)))
    } else if same_text(cmd, "ROLL") {
        Some((0, Some(2), Some(AsmCommand::Roll)))
    } else {
        None
    }
}

/// Commands that name no label, added to a list, leave its jump counts
/// right.
pub proof fn lemma_counts_match_plain(s: Seq<Instr>, t: Seq<Instr>, counts: Seq<usize>)
    requires
        counts_match(s, counts),
        forall|i: int| 0 <= i < t.len() ==> (#[trigger] t[i]).target().is_none(),
    ensures
        counts_match(s + t, counts),
{
    assert forall|id: LabelId| id < counts.len() implies #[trigger] counts[id as int] == jump_count(
        s + t,
        id,
    ) by {
        lemma_jump_count_concat(s, t, id);
        lemma_no_jumps(t, id);
    }
    assert forall|i: int|
        0 <= i < (s + t).len() && (#[trigger] (s + t)[i]).target().is_some() implies (s
        + t)[i].target().unwrap() < counts.len() by {
        if i < s.len() {
            assert((s + t)[i] == s[i]);
        } else {
            assert((s + t)[i] == t[i - s.len()]);
        }
    }
}

impl ParseContext {
    /// Adds the commands of a statement that takes integers: a push of each,
    /// and the command that follows, if any.
    pub fn add_plain(&mut self, vals: &Vec<BigInt>, op: Option<AsmCommand>)
        requires
            old(self).wf(),
            op.is_some() ==> op.unwrap()@.target().is_none(),
        ensures
            final(self).wf(),
            final(self)@ == (Parsing {
                cmds: old(self)@.cmds + pushes(values(vals@)) + match op {
                    Some(c) => seq![c@],
                    None => Seq::empty(),
                },
                ..old(self)@
            }),
    {
        let ghost start = instrs(self.cmds@);
        let ghost added = pushes(values(vals@));
        let mut i: usize = 0;
        assert(start + added.take(0) =~= start);
        while i < vals.len()
            invariant
                i <= vals.len(),
                added == pushes(values(vals@)),
                start == old(self)@.cmds,
                instrs(self.cmds@) == start + added.take(i as int),
                self.labels == old(self).labels,
                self.jump_counts == old(self).jump_counts,
                self.global_label_id == old(self).global_label_id,
            decreases vals.len() - i,
        {
            let c = AsmCommand::Push(vals[i].clone());
            proof {
                lemma_instrs_push(self.cmds@, c);
                assert(added[i as int] == c@);
                assert(start + added.take(i + 1) =~= (start + added.take(i as int)).push(c@));
            }
            self.cmds.push(c);
            i += 1;
        }
        assert(added.take(vals@.len() as int) =~= added);
        let ghost tail = if op.is_some() {
            seq![op.unwrap()@]
        } else {
            Seq::<Instr>::empty()
        };
        match op {
            Some(c) => {
                proof {
                    lemma_instrs_push(self.cmds@, c);
                    assert((start + added).push(c@) =~= start + added + tail);
                }
                self.cmds.push(c);
            },
            None => {
                assert(start + added =~= start + added + tail);
            },
        }
        proof {
            assert(start + added + tail =~= start + (added + tail));
            lemma_counts_match_plain(start, added + tail, self.jump_counts@);
        }
    }
}

/// One more jump to a label, counted, leaves the jump counts right.
pub proof fn lemma_counts_match_jump(
    s: Seq<Instr>,
    head: Seq<Instr>,
    jump: Instr,
    counts: Seq<usize>,
    id: LabelId,
)
    requires
        counts_match(s, counts),
        id < counts.len(),
        jump == Instr::Jump(id) || jump == Instr::JumpIf(id),
        forall|i: int| 0 <= i < head.len() ==> (#[trigger] head[i]).target().is_none(),
    ensures
        counts[id as int] + 1 <= (s + head).len() + 1,
        counts_match(
            (s + head).push(jump),
            counts.update(id as int, (counts[id as int] + 1) as usize),
        ) || (s + head).len() + 1 > usize::MAX,
{
    lemma_counts_match_plain(s, head, counts);
    let t = s + head;
    lemma_jump_count_bound(t, id);
    if t.len() + 1 <= usize::MAX {
        let out = t.push(jump);
        let next = counts.update(id as int, (counts[id as int] + 1) as usize);
        assert(out.drop_last() =~= t);
        assert forall|k: LabelId| k < next.len() implies #[trigger] next[k as int] == jump_count(
            out,
            k,
        ) by {
            assert(jump_count(out, k) == jump_count(t, k) + jump_weight(jump, k));
        }
        assert forall|i: int|
            0 <= i < out.len() && (#[trigger] out[i]).target().is_some() implies out[i].target().unwrap()
            < next.len() by {
            if i < t.len() {
                assert(out[i] == t[i]);
            }
        }
    }
}

/// One more label leaves the jump counts right.
pub proof fn lemma_counts_match_label(s: Seq<Instr>, counts: Seq<usize>, id: LabelId)
    requires
        counts_match(s, counts),
        id < counts.len(),
    ensures
        counts_match(s.push(Instr::Label(id)), counts),
{
    let out = s.push(Instr::Label(id));
    assert(out.drop_last() =~= s);
    assert forall|k: LabelId| k < counts.len() implies #[trigger] counts[k as int] == jump_count(
        out,
        k,
    ) by {
        assert(jump_count(out, k) == jump_count(s, k) + jump_weight(Instr::Label(id), k));
    }
    assert forall|i: int|
        0 <= i < out.len() && (#[trigger] out[i]).target().is_some() implies out[i].target().unwrap()
        < counts.len() by {
        if i < s.len() {
            assert(out[i] == s[i]);
        }
    }
}

impl ParseContext {
    /// Adds a jump to the label `name`, found on the line `lineno`.
    pub fn add_jump(&mut self, name: String, lineno: LineNo, conditional: bool)
        requires
            old(self).wf(),
        ensures
            final(self).wf(),
            final(self)@ == old(self)@.jump(name@, lineno, conditional),
    {
        let ghost start = instrs(self.cmds@);
        let id = self.get_label(name);
        let ghost mid = self@;
        let ghost views = label_views(self.labels@);
        assert(views[id as int] == self.labels@[id as int]@);
        if self.labels[id].label.jump_lineno.is_none() {
            let entry = LabelEntry {
                name: self.labels[id].name.clone(),
                label: Label {
                    id,
                    label_lineno: self.labels[id].label.label_lineno,
                    jump_lineno: Some(lineno),
                },
            };
            assert(label_views(self.labels@.update(id as int, entry)) =~= views.update(
                id as int,
                entry@,
            ));
            self.labels.set(id, entry);
        } else {
            assert(views.update(id as int, views[id as int]) =~= views);
        }
        let ghost head = if conditional {
            seq![Instr::Not, Instr::Not]
        } else {
            Seq::<Instr>::empty()
        };
        let ghost jump = if conditional {
            Instr::JumpIf(id)
        } else {
            Instr::Jump(id)
        };
        proof {
            lemma_counts_match_jump(start, head, jump, mid.counts, id);
        }
        if conditional {
            proof {
                lemma_instrs_push(self.cmds@, AsmCommand::Not);
                lemma_instrs_push(self.cmds@.push(AsmCommand::Not), AsmCommand::Not);
                lemma_instrs_push(
                    self.cmds@.push(AsmCommand::Not).push(AsmCommand::Not),
                    AsmCommand::JumpIf(id),
                );
            }
            self.cmds.push(AsmCommand::Not);
            self.cmds.push(AsmCommand::Not);
            self.cmds.push(AsmCommand::JumpIf(id));
            assert(instrs(self.cmds@) =~= start + seq![
                Instr::Not,
                Instr::Not,
                Instr::JumpIf(id),
            ]);
        } else {
            proof {
                lemma_instrs_push(self.cmds@, AsmCommand::Jump(id));
            }
            self.cmds.push(AsmCommand::Jump(id));
        }
        assert(instrs(self.cmds@) =~= (start + head).push(jump));
        let len = self.cmds.len();
        assert(instrs(self.cmds@).len() == len);
        let count = self.jump_counts[id];
        self.jump_counts.set(id, count + 1);
    }

    /// Adds the definition of the label `name`, found on the line `lineno`;
    /// a label may be defined once only.
    pub fn add_label(&mut self, name: &str, lineno: LineNo) -> (r: Result<(), ParseErrorType>)
        requires
            old(self).wf(),
        ensures
            final(self).wf(),
            match r {
                Ok(_) => old(self)@.define(name@, lineno) == Ok::<Parsing, ParseFault>(
                    final(self)@,
                ),
                Err(e) => old(self)@.define(name@, lineno) == Err::<Parsing, ParseFault>(e@),
            },
    {
        let ghost start = instrs(self.cmds@);
        let id = self.get_label(name.to_owned());
        let ghost views = label_views(self.labels@);
        assert(views[id as int] == self.labels@[id as int]@);
        if self.labels[id].label.label_lineno.is_some() {
            return Err(ParseErrorType::DuplicateLabel(name.to_owned()));
        }
        let entry = LabelEntry {
            name: self.labels[id].name.clone(),
            label: Label {
                id,
                label_lineno: Some(lineno),
                jump_lineno: self.labels[id].label.jump_lineno,
            },
        };
        assert(label_views(self.labels@.update(id as int, entry)) =~= views.update(
            id as int,
            entry@,
        ));
        self.labels.set(id, entry);
        proof {
            lemma_instrs_push(self.cmds@, AsmCommand::Label(id));
            lemma_counts_match_label(start, self.jump_counts@, id);
        }
        self.cmds.push(AsmCommand::Label(id));
        Ok(())
    }
}

/// Parses one statement: the commands it stands for are added to those of
/// `c`, its label numbered, its jump counted.
pub fn parse_line(line: Line, c: &mut ParseContext) -> (r: Result<(), ParseErrorType>)
    requires
        old(c).wf(),
    ensures
        final(c).wf(),
        match r {
            Ok(_) => old(c)@.step(line@) == Ok::<Parsing, ParseFault>(final(c)@),
            Err(e) => old(c)@.step(line@) == Err::<Parsing, ParseFault>(e@),
        },
{
    let Line { lineno, stmt } = line;
    match stmt {
        Statement::Label(label_name) => c.add_label(label_name.as_str(), lineno),
        Statement::Cmd { cmd, args } => {
            match plain_command_of(cmd.as_str()) {
                Some((min, max, op)) => {
                    let vals = match validate_integers(args, min, max) {
                        Ok(vals) => vals,
                        Err(e) => {
                            return Err(e);
                        },
                    };
                    c.add_plain(&vals, op);
                    Ok(())
                },
                None => {
                    let conditional = same_text(cmd.as_str(), "JUMPIF");
                    if conditional || same_text(cmd.as_str(), "JUMP") {
                        let name = match validate_label(args) {
                            Ok(name) => name,
                            Err(e) => {
                                return Err(e);
                            },
                        };
                        c.add_jump(name, lineno, conditional);
                        Ok(())
                    } else {
                        Err(ParseErrorType::UnrecognizedCommand(cmd))
                    }
                },
            }
        },
    }
}

/// Parses the statements of a program into its commands, with the labels
/// numbered in the order in which they are met and the jumps to each
/// counted. Every label that is jumped to must be defined.
pub fn to_bytecode(ast: Vec<Line>) -> (r: Result<PietAsm, ParseError>)
    ensures
        match r {
            Ok(program) => parsed(line_views(ast@)) == Ok::<
                (Seq<Instr>, Seq<usize>),
                (usize, ParseFault),
            >((program.instrs(), program.jump_counts@)) && program.wf() && program.linked(),
            Err(e) => parsed(line_views(ast@)) == Err::<
                (Seq<Instr>, Seq<usize>),
                (usize, ParseFault),
            >(e@),
        },
{
    let ghost lines = line_views(ast@);
    let mut context = ParseContext::new();
    let mut rest = ast;
    let n = rest.len();
    let mut i: usize = 0;
    while i < n
        invariant
            i <= n,
            n == rest@.len(),
            lines == line_views(ast@),
            lines.len() == n,
            context.wf(),
            forall|k: int| i <= k < n ==> (#[trigger] rest@[k])@ == lines[k],
            Parsing::run(lines, i as nat) == Ok::<Parsing, (usize, ParseFault)>(context@),
        decreases n - i,
    {
        let mut line = Line { lineno: 0, stmt: Statement::Label(String::new()) };
        std::mem::swap(&mut line, &mut rest[i]);
        let lineno = line.lineno;
        match parse_line(line, &mut context) {
            Ok(_) => {},
            Err(e) => {
                proof {
                    assert(Parsing::run(lines, (i + 1) as nat) == Err::<
                        Parsing,
                        (usize, ParseFault),
                    >((lineno, e@)));
                    lemma_parse_error_stays(lines, (i + 1) as nat, lines.len());
                }
                return Err(e.at(lineno));
            },
        }
        i += 1;
    }
    let ghost views = label_views(context.labels@);
    let mut k: usize = 0;
    while k < context.labels.len()
        invariant
            k <= context.labels@.len(),
            views == label_views(context.labels@),
            lines == line_views(ast@),
            Parsing::run(lines, lines.len()) == Ok::<Parsing, (usize, ParseFault)>(context@),
            missing_label(views, k as nat).is_none(),
        decreases context.labels.len() - k,
    {
        assert(views[k as int] == context.labels@[k as int]@);
        if context.labels[k].label.label_lineno.is_none() {
            proof {
                lemma_missing_label_found(views, k as int, views.len());
            }
            let lineno = match context.labels[k].label.jump_lineno {
                Some(lineno) => lineno,
                None => 0,
            };
            return Err(ParseErrorType::MissingLabel(context.labels[k].name.clone()).at(lineno));
        }
        k += 1;
    }
    proof {
        lemma_parsed_linked(lines);
    }
    let ParseContext { cmds, jump_counts, .. } = context;
    Ok(PietAsm { cmds, jump_counts })
}

/// A label that no line defines, found at `i` and not before, is the first
/// such.
pub proof fn lemma_missing_label_found(labels: Seq<LabelView>, i: int, n: nat)
    requires
        0 <= i < n <= labels.len(),
        labels[i].label_lineno.is_none(),
        missing_label(labels, i as nat).is_none(),
    ensures
        missing_label(labels, n) == Some(i),
    decreases n,
{
    if n > i + 1 {
        lemma_missing_label_found(labels, i, (n - 1) as nat);
    }
}

impl Parsing {
    /// What holds of the labels while a program is parsed: the commands name
    /// only labels that were met, and a label with a line that defines it is
    /// defined among the commands.
    pub open spec fn labels_kept(self) -> bool {
        &&& forall|i: int|
            0 <= i < self.cmds.len() && (#[trigger] self.cmds[i]).target().is_some()
                ==> self.cmds[i].target().unwrap() < self.labels.len()
        &&& forall|id: int|
            0 <= id < self.labels.len() && (#[trigger] self.labels[id]).label_lineno.is_some()
                ==> self.cmds.contains(Instr::Label(id as usize))
    }
}

/// The place of a label lies among the labels.
pub proof fn lemma_label_index_bound(labels: Seq<LabelView>, name: Seq<char>, n: nat)
    requires
        n <= labels.len(),
    ensures
        label_index(labels, name, n).is_some() ==> 0 <= label_index(labels, name, n).unwrap() < n,
    decreases n,
{
    if n > 0 {
        lemma_label_index_bound(labels, name, (n - 1) as nat);
    }
}

/// A list that is lengthened holds what it held.
pub proof fn lemma_contains_extended(s: Seq<Instr>, t: Seq<Instr>, c: Instr)
    requires
        s.contains(c),
    ensures
        (s + t).contains(c),
{
    let i = choose|i: int| 0 <= i < s.len() && s[i] == c;
    assert((s + t)[i] == c);
}

/// One more statement keeps what holds of the labels.
pub proof fn lemma_step_keeps_labels(p: Parsing, line: LineView)
    requires
        p.labels_kept(),
        p.step(line) is Ok,
    ensures
        p.step(line)->Ok_0.labels_kept(),
{
    let q = p.step(line)->Ok_0;
    match line.stmt {
        StatementView::Label(name) => {
            lemma_label_index_bound(p.labels, name, p.labels.len());
            let (m, id) = p.interned(name);
            assert(q.cmds == p.cmds.push(Instr::Label(id as usize)));
            assert(q.cmds =~= p.cmds + seq![Instr::Label(id as usize)]);
            assert forall|i: int|
                0 <= i < q.cmds.len() && (#[trigger] q.cmds[i]).target().is_some() implies q.cmds[i].target().unwrap()
                < q.labels.len() by {
                if i < p.cmds.len() {
                    assert(q.cmds[i] == p.cmds[i]);
                }
            }
            assert forall|k: int|
                0 <= k < q.labels.len() && (#[trigger] q.labels[k]).label_lineno.is_some() implies q.cmds.contains(
                Instr::Label(k as usize),
            ) by {
                if k == id {
                    assert(q.cmds[p.cmds.len() as int] == Instr::Label(k as usize));
                } else {
                    assert(m.labels[k].label_lineno.is_some());
                    assert(k < p.labels.len());
                    assert(p.labels[k] == m.labels[k]);
                    lemma_contains_extended(
                        p.cmds,
                        seq![Instr::Label(id as usize)],
                        Instr::Label(k as usize),
                    );
                }
            }
        },
        StatementView::Cmd { cmd, args } => {
            match plain_command(cmd) {
                Some((min, max, op)) => {
                    let vals = valid_integers(args, min, max)->Ok_0;
                    let tail = pushes(vals) + match op {
                        Some(c) => seq![c],
                        None => Seq::<Instr>::empty(),
                    };
                    assert(q.cmds =~= p.cmds + tail);
                    assert forall|i: int|
                        0 <= i < q.cmds.len() && (#[trigger] q.cmds[i]).target().is_some() implies q.cmds[i].target().unwrap()
                        < q.labels.len() by {
                        if i < p.cmds.len() {
                            assert(q.cmds[i] == p.cmds[i]);
                        } else {
                            assert(q.cmds[i] == tail[i - p.cmds.len()]);
                        }
                    }
                    assert forall|k: int|
                        0 <= k < q.labels.len() && (#[trigger] q.labels[k]).label_lineno.is_some() implies q.cmds.contains(
                        Instr::Label(k as usize),
                    ) by {
                        lemma_contains_extended(p.cmds, tail, Instr::Label(k as usize));
                    }
                },
                None => {
                    let name = valid_label(args)->Ok_0;
                    let conditional = cmd == "JUMPIF"@;
                    lemma_label_index_bound(p.labels, name, p.labels.len());
                    let (m, id) = p.interned(name);
                    let tail = if conditional {
                        seq![Instr::Not, Instr::Not, Instr::JumpIf(id as usize)]
                    } else {
                        seq![Instr::Jump(id as usize)]
                    };
                    assert(q.cmds =~= p.cmds + tail);
                    assert forall|i: int|
                        0 <= i < q.cmds.len() && (#[trigger] q.cmds[i]).target().is_some() implies q.cmds[i].target().unwrap()
                        < q.labels.len() by {
                        if i < p.cmds.len() {
                            assert(q.cmds[i] == p.cmds[i]);
                        } else {
                            assert(q.cmds[i] == tail[i - p.cmds.len()]);
                        }
                    }
                    assert forall|k: int|
                        0 <= k < q.labels.len() && (#[trigger] q.labels[k]).label_lineno.is_some() implies q.cmds.contains(
                        Instr::Label(k as usize),
                    ) by {
                        assert(m.labels[k].label_lineno.is_some());
                        assert(k < p.labels.len());
                        assert(p.labels[k] == m.labels[k]);
                        lemma_contains_extended(p.cmds, tail, Instr::Label(k as usize));
                    }
                },
            }
        },
    }
}

/// The statements parsed so far keep what holds of the labels.
pub proof fn lemma_run_keeps_labels(lines: Seq<LineView>, n: nat)
    requires
        Parsing::run(lines, n) is Ok,
    ensures
        Parsing::run(lines, n)->Ok_0.labels_kept(),
    decreases n,
{
    if n > 0 {
        lemma_run_keeps_labels(lines, (n - 1) as nat);
        lemma_step_keeps_labels(Parsing::run(lines, (n - 1) as nat)->Ok_0, lines[n - 1]);
    }
}

/// With no label missing among the first `n`, each of them has a line that
/// defines it.
pub proof fn lemma_none_missing(labels: Seq<LabelView>, n: nat)
    requires
        n <= labels.len(),
        missing_label(labels, n).is_none(),
    ensures
        forall|k: int| 0 <= k < n ==> (#[trigger] labels[k]).label_lineno.is_some(),
    decreases n,
{
    if n > 0 {
        lemma_none_missing(labels, (n - 1) as nat);
    }
}

/// In a program that was parsed every jump goes to a label that the program
/// defines.
pub proof fn lemma_parsed_linked(lines: Seq<LineView>)
    requires
        parsed(lines) is Ok,
    ensures
        labels_present(parsed(lines)->Ok_0.0),
{
    lemma_run_keeps_labels(lines, lines.len());
    let p = Parsing::run(lines, lines.len())->Ok_0;
    lemma_none_missing(p.labels, p.labels.len());
    assert forall|i: int|
        0 <= i < p.cmds.len() && ((#[trigger] p.cmds[i]) is Jump || p.cmds[i] is JumpIf) implies p.cmds.contains(
        Instr::Label(p.cmds[i].target().unwrap()),
    ) by {
        let id = p.cmds[i].target().unwrap();
        assert(p.cmds[i].target().is_some());
        assert(p.labels[id as int].label_lineno.is_some());
    }
}

} // verus!
