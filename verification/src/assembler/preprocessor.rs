//! The preprocessor: from lines of text to statements, with comments gone
//! and the blocks that repeat written out.

use crate::assembler::text::{
    chars_of, find_char, find_word_end, find_word_start, index_of, is_ascii_space, is_space,
    lemma_index_of, lemma_trim, lemma_word_end, lemma_word_start, reads_as, text_of, trim,
    trim_end, trim_start, word_end, word_start, words,
};
use crate::assembler::{ParseError, ParseErrorType, ParseFault};
use crate::bigint::big_value;
use crate::vm::values;
use num_bigint::BigInt;
use vstd::prelude::*;

verus! {

/// Whether `c` can begin an identifier: a letter of the ASCII kind or an
/// underscore.
pub open spec fn is_leader(c: char) -> bool {
    ('a' <= c && c <= 'z') || ('A' <= c && c <= 'Z') || c == '_'
}

/// Whether `c` can go on an identifier: a leader or a digit.
pub open spec fn is_follower(c: char) -> bool {
    is_leader(c) || ('0' <= c && c <= '9')
}

/// Whether `s` is an identifier.
pub open spec fn is_identifier(s: Seq<char>) -> bool {
    &&& s.len() > 0
    &&& is_leader(s[0])
    &&& forall|i: int| 1 <= i < s.len() ==> is_follower(#[trigger] s[i])
}

/// Why `s` is no identifier, when it is none.
pub open spec fn identifier_fault(s: Seq<char>) -> Option<ParseFault> {
    if s.len() == 0 {
        Some(ParseFault::EmptyIdentifier)
    } else if is_identifier(s) {
        None
    } else {
        Some(ParseFault::InvalidIdentifierFormat(s))
    }
}

/// Whether the piece of `s` from `from` up to `to` is an identifier.
pub fn is_identifier_at(s: &Vec<char>, from: usize, to: usize) -> (r: bool)
    requires
        from <= to <= s@.len(),
    ensures
        r == is_identifier(s@.subrange(from as int, to as int)),
{
    let ghost piece = s@.subrange(from as int, to as int);
    if from == to {
        return false;
    }
    let c = s[from];
    assert(piece[0] == c);
    if !(('a' <= c && c <= 'z') || ('A' <= c && c <= 'Z') || c == '_') {
        return false;
    }
    let mut i: usize = from + 1;
    while i < to
        invariant
            from < i <= to <= s@.len(),
            piece == s@.subrange(from as int, to as int),
            forall|k: int| 1 <= k < i - from ==> is_follower(#[trigger] piece[k]),
        decreases to - i,
    {
        let c = s[i];
        assert(piece[i - from] == c);
        if !(('a' <= c && c <= 'z') || ('A' <= c && c <= 'Z') || c == '_' || ('0' <= c && c
            <= '9')) {
            return false;
        }
        i += 1;
    }
    true
}

/// Reads `s` as an identifier: a letter of the ASCII kind or an underscore,
/// then letters, digits and underscores.
pub fn parse_identifier(s: &str) -> (r: Result<&str, ParseErrorType>)
    ensures
        match r {
            Ok(t) => is_identifier(s@) && t@ == s@,
            Err(e) => identifier_fault(s@) == Some(e@),
        },
{
    let chars = chars_of(s);
    assert(chars@.subrange(0, chars@.len() as int) =~= chars@);
    if chars.len() == 0 {
        return Err(ParseErrorType::EmptyIdentifier);
    }
    if is_identifier_at(&chars, 0, chars.len()) {
        Ok(s)
    } else {
        Err(ParseErrorType::InvalidIdentifierFormat(s.to_owned()))
    }
}

/// The integer that `s` is read as by the arbitrary-precision library, when
/// it is read as one.
pub uninterp spec fn decimal_value(s: Seq<char>) -> Option<int>;

/// `str::parse` to a `BigInt`: the integer that the text is read as, when it
/// is read as one; which texts are, and as what, is left to the library.
#[verifier::external_body]
pub(crate) fn big_parse(s: &str) -> (r: Option<BigInt>)
    ensures
        r.is_some() == decimal_value(s@).is_some(),
        r.is_some() ==> Some(big_value(r.unwrap())) == decimal_value(s@),
{
    s.parse::<BigInt>().ok()
}

/// What a text that was or was not read as an integer comes to when an
/// integer is asked for.
pub fn integer_or_fault(s: &str, parsed: Option<BigInt>) -> (r: Result<BigInt, ParseErrorType>)
    ensures
        match r {
            Ok(n) => parsed == Some(n),
            Err(e) => parsed.is_none() && e@ == ParseFault::ExpectedInteger(s@),
        },
{
    match parsed {
        Some(n) => Ok(n),
        None => Err(ParseErrorType::ExpectedInteger(s.to_owned())),
    }
}

/// Reads `s` as an integer.
pub fn parse_integer(s: &str) -> (r: Result<BigInt, ParseErrorType>)
    ensures
        match r {
            Ok(n) => decimal_value(s@) == Some(big_value(n)),
            Err(e) => decimal_value(s@).is_none() && e@ == ParseFault::ExpectedInteger(s@),
        },
{
    integer_or_fault(s, big_parse(s))
}

/// An argument of a command.
#[derive(Debug)]
pub enum Token {
    /// The variable of a block that repeats.
    Var(String),
    Num(BigInt),
    Label(String),
}

/// A `Token` as a mathematical value.
pub enum TokenView {
    Var(Seq<char>),
    Num(int),
    Label(Seq<char>),
}

impl View for Token {
    type V = TokenView;

    open spec fn view(&self) -> TokenView {
        match self {
            Token::Var(name) => TokenView::Var(name@),
            Token::Num(n) => TokenView::Num(big_value(*n)),
            Token::Label(name) => TokenView::Label(name@),
        }
    }
}

impl TokenView {
    /// The token with `value` in place of the variable `name`.
    pub open spec fn bound(self, name: Seq<char>, value: int) -> TokenView {
        if self == TokenView::Var(name) {
            TokenView::Num(value)
        } else {
            self
        }
    }
}

/// What the argument `arg` is, `parsed` being the integer it is read as, if
/// it is read as one: a variable when it begins with `@`, else that integer,
/// else a label, which must be an identifier.
pub open spec fn token_of(arg: Seq<char>, parsed: Option<int>) -> Result<TokenView, ParseFault> {
    if arg.len() > 0 && arg[0] == '@' {
        Ok(TokenView::Var(arg.skip(1)))
    } else {
        match parsed {
            Some(n) => Ok(TokenView::Num(n)),
            None => match identifier_fault(arg) {
                None => Ok(TokenView::Label(arg)),
                Some(e) => Err(e),
            },
        }
    }
}

/// The views of a list of tokens.
pub open spec fn token_views(args: Seq<Token>) -> Seq<TokenView> {
    args.map_values(|t: Token| t@)
}

/// Whether two strings hold the same text.
pub fn same_text(a: &str, b: &str) -> (r: bool)
    ensures
        r == (a@ == b@),
{
    let chars = chars_of(a);
    assert(chars@.subrange(0, chars@.len() as int) =~= chars@);
    reads_as(&chars, 0, chars.len(), b)
}

impl Token {
    /// A copy of the token.
    pub fn copy(&self) -> (r: Token)
        ensures
            r@ == self@,
    {
        match self {
            Token::Var(name) => Token::Var(name.clone()),
            Token::Num(n) => Token::Num(n.clone()),
            Token::Label(name) => Token::Label(name.clone()),
        }
    }

    /// Puts `value` in place of the variable `name`.
    pub fn bind(&mut self, name: &str, value: &BigInt)
        ensures
            final(self)@ == old(self)@.bound(name@, big_value(*value)),
    {
        let hit = match self {
            Token::Var(id) => same_text(id.as_str(), name),
            _ => false,
        };
        if hit {
            *self = Token::Num(value.clone());
        }
    }

    /// What the argument `arg` is, `parsed` being the integer it was read as,
    /// if it was read as one.
    pub fn classify(arg: &str, parsed: Option<BigInt>) -> (r: Result<Token, ParseErrorType>)
        ensures
            match r {
                Ok(t) => token_of(
                    arg@,
                    match parsed {
                        Some(n) => Some(big_value(n)),
                        None => None,
                    },
                ) == Ok::<TokenView, ParseFault>(t@),
                Err(e) => token_of(
                    arg@,
                    match parsed {
                        Some(n) => Some(big_value(n)),
                        None => None,
                    },
                ) == Err::<TokenView, ParseFault>(e@),
            },
    {
        let n = arg.unicode_len();
        if n > 0 && arg.get_char(0) == '@' {
            let name = text_of(arg, 1, n);
            assert(arg@.skip(1) =~= arg@.subrange(1, n as int));
            return Ok(Token::Var(name));
        }
        match parsed {
            Some(number) => Ok(Token::Num(number)),
            None => match parse_identifier(arg) {
                Ok(label) => Ok(Token::Label(label.to_owned())),
                Err(e) => Err(e),
            },
        }
    }

    /// Reads an argument.
    pub fn from_text(arg: &str) -> (r: Result<Token, ParseErrorType>)
        ensures
            match r {
                Ok(t) => token_of(arg@, decimal_value(arg@)) == Ok::<TokenView, ParseFault>(t@),
                Err(e) => token_of(arg@, decimal_value(arg@)) == Err::<TokenView, ParseFault>(e@),
            },
    {
        Token::classify(arg, big_parse(arg))
    }

    /// The integer of a token that is one; a variable is unbound, a label of
    /// the wrong type.
    pub fn into_integer(self) -> (r: Result<BigInt, ParseErrorType>)
        ensures
            match r {
                Ok(n) => self@ == TokenView::Num(big_value(n)),
                Err(e) => match self@ {
                    TokenView::Var(name) => e@ == ParseFault::UnboundVarError(name),
                    TokenView::Label(_) => e@ == ParseFault::TypeError,
                    TokenView::Num(_) => false,
                },
            },
    {
        match self {
            Token::Var(var) => Err(ParseErrorType::UnboundVarError(var)),
            Token::Num(number) => Ok(number),
            Token::Label(_) => Err(ParseErrorType::TypeError),
        }
    }

    /// The name of a token that is a label; a variable is unbound, an
    /// integer of the wrong type.
    pub fn into_label(self) -> (r: Result<String, ParseErrorType>)
        ensures
            match r {
                Ok(name) => self@ == TokenView::Label(name@),
                Err(e) => match self@ {
                    TokenView::Var(name) => e@ == ParseFault::UnboundVarError(name),
                    TokenView::Num(_) => e@ == ParseFault::TypeError,
                    TokenView::Label(_) => false,
                },
            },
    {
        match self {
            Token::Var(var) => Err(ParseErrorType::UnboundVarError(var)),
            Token::Num(_) => Err(ParseErrorType::TypeError),
            Token::Label(label) => Ok(label),
        }
    }
}

/// A statement: a command with its arguments, or the definition of a label.
#[derive(Debug)]
pub enum Statement {
    Cmd { cmd: String, args: Vec<Token> },
    Label(String),
}

/// A `Statement` as a mathematical value.
pub enum StatementView {
    Cmd { cmd: Seq<char>, args: Seq<TokenView> },
    Label(Seq<char>),
}

impl View for Statement {
    type V = StatementView;

    open spec fn view(&self) -> StatementView {
        match self {
            Statement::Cmd { cmd, args } => StatementView::Cmd {
                cmd: cmd@,
                args: token_views(args@),
            },
            Statement::Label(name) => StatementView::Label(name@),
        }
    }
}

impl StatementView {
    /// The statement with `value` in place of the variable `name` in each
    /// argument.
    pub open spec fn bound(self, name: Seq<char>, value: int) -> StatementView {
        match self {
            StatementView::Cmd { cmd, args } => StatementView::Cmd {
                cmd,
                args: args.map_values(|t: TokenView| t.bound(name, value)),
            },
            StatementView::Label(_) => self,
        }
    }
}

/// A statement with the number of the line it stood on.
#[derive(Debug)]
pub struct Line {
    pub lineno: usize,
    pub stmt: Statement,
}

/// A `Line` as a mathematical value.
pub struct LineView {
    pub lineno: usize,
    pub stmt: StatementView,
}

impl View for Line {
    type V = LineView;

    open spec fn view(&self) -> LineView {
        LineView { lineno: self.lineno, stmt: self.stmt@ }
    }
}

impl LineView {
    /// The line with `value` in place of the variable `name`.
    pub open spec fn bound(self, name: Seq<char>, value: int) -> LineView {
        LineView { stmt: self.stmt.bound(name, value), ..self }
    }
}

/// The views of a list of lines.
pub open spec fn line_views(lines: Seq<Line>) -> Seq<LineView> {
    lines.map_values(|l: Line| l@)
}

impl Statement {
    /// A copy of the statement.
    pub fn copy(&self) -> (r: Statement)
        ensures
            r@ == self@,
    {
        match self {
            Statement::Cmd { cmd, args } => {
                let mut out: Vec<Token> = Vec::new();
                let mut i: usize = 0;
                while i < args.len()
                    invariant
                        i <= args.len(),
                        out@.len() == i,
                        forall|k: int| 0 <= k < i ==> (#[trigger] out@[k])@ == args@[k]@,
                    decreases args.len() - i,
                {
                    out.push(args[i].copy());
                    i += 1;
                }
                assert(token_views(out@) =~= token_views(args@));
                Statement::Cmd { cmd: cmd.clone(), args: out }
            },
            Statement::Label(name) => Statement::Label(name.clone()),
        }
    }

    /// Puts `value` in place of the variable `name` in each argument.
    pub fn bind(&mut self, name: &str, value: &BigInt)
        ensures
            final(self)@ == old(self)@.bound(name@, big_value(*value)),
    {
        match self {
            Statement::Cmd { cmd, args } => {
                let ghost before = token_views(args@);
                let mut i: usize = 0;
                while i < args.len()
                    invariant
                        i <= args.len(),
                        args@.len() == before.len(),
                        forall|k: int|
                            0 <= k < i ==> (#[trigger] args@[k])@ == before[k].bound(
                                name@,
                                big_value(*value),
                            ),
                        forall|k: int| i <= k < args@.len() ==> (#[trigger] args@[k])@ == before[k],
                    decreases args.len() - i,
                {
                    let mut token = args[i].copy();
                    token.bind(name, value);
                    args.set(i, token);
                    i += 1;
                }
                assert(token_views(args@) =~= before.map_values(
                    |t: TokenView| t.bound(name@, big_value(*value)),
                ));
            },
            Statement::Label(_) => {},
        }
    }
}

impl Line {
    /// A copy of the line.
    pub fn copy(&self) -> (r: Line)
        ensures
            r@ == self@,
    {
        Line { lineno: self.lineno, stmt: self.stmt.copy() }
    }

    /// Puts `value` in place of the variable `name`.
    pub fn bind(&mut self, name: &str, value: &BigInt)
        ensures
            final(self)@ == old(self)@.bound(name@, big_value(*value)),
    {
        self.stmt.bind(name, value);
    }
}

/// What a line is to the preprocessor: a statement, the head of a block that
/// repeats, with its variable and the values it takes, or the end of one.
#[derive(Debug)]
pub enum PreprocToken {
    Line(Line),
    Each(String, Vec<BigInt>),
    End,
}

/// A `PreprocToken` as a mathematical value.
pub enum PreprocView {
    Line(LineView),
    Each(Seq<char>, Seq<int>),
    End,
}

impl View for PreprocToken {
    type V = PreprocView;

    open spec fn view(&self) -> PreprocView {
        match self {
            PreprocToken::Line(line) => PreprocView::Line(line@),
            PreprocToken::Each(name, terms) => PreprocView::Each(name@, values(terms@)),
            PreprocToken::End => PreprocView::End,
        }
    }
}

/// The piece of `s` that the word `w` covers.
pub open spec fn piece(s: Seq<char>, w: (int, int)) -> Seq<char> {
    s.subrange(w.0, w.1)
}

/// The tokens that the first `n` of the words `ws` of `s` are read as, or
/// why the first that fails cannot be read.
pub open spec fn tokens_of(s: Seq<char>, ws: Seq<(int, int)>, n: nat) -> Result<
    Seq<TokenView>,
    ParseFault,
>
    decreases n,
{
    if n == 0 {
        Ok(Seq::empty())
    } else {
        match tokens_of(s, ws, (n - 1) as nat) {
            Err(e) => Err(e),
            Ok(ts) => match token_of(piece(s, ws[n - 1]), decimal_value(piece(s, ws[n - 1]))) {
                Ok(t) => Ok(ts.push(t)),
                Err(e) => Err(e),
            },
        }
    }
}

/// The integers that the first `n` of the words `ws` of `s` are read as, or
/// the first that is read as none.
pub open spec fn integers_of(s: Seq<char>, ws: Seq<(int, int)>, n: nat) -> Result<
    Seq<int>,
    ParseFault,
>
    decreases n,
{
    if n == 0 {
        Ok(Seq::empty())
    } else {
        match integers_of(s, ws, (n - 1) as nat) {
            Err(e) => Err(e),
            Ok(ts) => match decimal_value(piece(s, ws[n - 1])) {
                Some(v) => Ok(ts.push(v)),
                None => Err(ParseFault::ExpectedInteger(piece(s, ws[n - 1]))),
            },
        }
    }
}

/// What the head of a block that repeats says, its text standing in `s`
/// from `a` up to `b`: the name of the variable before the `=`, which must
/// be an identifier, and after it, in square brackets, the integers that the
/// variable takes.
pub open spec fn each_of(s: Seq<char>, a: int, b: int) -> Result<PreprocView, ParseFault> {
    let eq = index_of(s, '=', a, b);
    if eq >= b {
        Err(ParseFault::InvalidPragma("EACH"@))
    } else {
        let na = trim_start(s, a, eq);
        let nb = trim_end(s, na, eq);
        match identifier_fault(s.subrange(na, nb)) {
            Some(e) => Err(e),
            None => {
                let sa = trim_start(s, eq + 1, b);
                let sb = trim_end(s, sa, b);
                if !(sb - sa >= 2 && s[sa] == '[' && s[sb - 1] == ']') {
                    Err(ParseFault::InvalidPragma("EACH"@))
                } else {
                    let ta = trim_start(s, sa + 1, sb - 1);
                    let tb = trim_end(s, ta, sb - 1);
                    let ws = words(s, ta, tb);
                    match integers_of(s, ws, ws.len()) {
                        Ok(terms) => Ok(PreprocView::Each(s.subrange(na, nb), terms)),
                        Err(e) => Err(e),
                    }
                }
            },
        }
    }
}

/// What a line that begins with `@` says: `EACH` heads a block that repeats,
/// `END` with nothing after it ends one, and nothing else is allowed.
pub open spec fn pragma_of(s: Seq<char>) -> Result<PreprocView, ParseFault> {
    let n = s.len() as int;
    let ws = word_end(s, 1, n);
    let cmd = s.subrange(1, ws);
    let rest = if ws < n {
        ws + 1
    } else {
        n
    };
    let a = trim_start(s, rest, n);
    let b = trim_end(s, a, n);
    if cmd == "EACH"@ {
        each_of(s, a, b)
    } else if cmd == "END"@ {
        if a == b {
            Ok(PreprocView::End)
        } else {
            Err(ParseFault::InvalidPragma(s.skip(1)))
        }
    } else {
        Err(ParseFault::InvalidPragma(cmd))
    }
}

/// What a line that is no pragma says: after a `:` the name of a label,
/// which must be an identifier; else a command, its first word, with the
/// words after it as its arguments.
pub open spec fn statement_of(s: Seq<char>, lineno: usize) -> Result<PreprocView, ParseFault> {
    if s[0] == ':' {
        match identifier_fault(s.skip(1)) {
            None => Ok(
                PreprocView::Line(LineView { lineno, stmt: StatementView::Label(s.skip(1)) }),
            ),
            Some(e) => Err(e),
        }
    } else {
        let ws = words(s, 0, s.len() as int);
        match tokens_of(s, ws.skip(1), (ws.len() - 1) as nat) {
            Ok(args) => Ok(
                PreprocView::Line(
                    LineView { lineno, stmt: StatementView::Cmd { cmd: piece(s, ws[0]), args } },
                ),
            ),
            Err(e) => Err(e),
        }
    }
}

/// What a line says. The line must hold something and begin with no blank.
pub open spec fn line_token(s: Seq<char>, lineno: usize) -> Result<PreprocView, ParseFault> {
    if s[0] == '@' {
        pragma_of(s)
    } else {
        statement_of(s, lineno)
    }
}

/// Where the words of `s` from `from` up to `to` begin and end.
pub fn split_words(s: &Vec<char>, from: usize, to: usize) -> (r: Vec<(usize, usize)>)
    requires
        from <= to <= s@.len(),
    ensures
        r@.len() == words(s@, from as int, to as int).len(),
        forall|i: int|
            0 <= i < r@.len() ==> {
                &&& (#[trigger] r@[i]).0 <= r@[i].1 <= to
                &&& (r@[i].0 as int, r@[i].1 as int) == words(s@, from as int, to as int)[i]
            },
{
    let ghost all = words(s@, from as int, to as int);
    let mut out: Vec<(usize, usize)> = Vec::new();
    let mut at: usize = from;
    loop
        invariant
            from <= at <= to <= s@.len(),
            all == words(s@, from as int, to as int),
            all.len() == out@.len() + words(s@, at as int, to as int).len(),
            forall|i: int|
                0 <= i < words(s@, at as int, to as int).len() ==> all[out@.len() + i] == words(
                    s@,
                    at as int,
                    to as int,
                )[i],
            forall|i: int|
                0 <= i < out@.len() ==> {
                    &&& (#[trigger] out@[i]).0 <= out@[i].1 <= to
                    &&& (out@[i].0 as int, out@[i].1 as int) == all[i]
                },
        decreases to - at,
    {
        let a = find_word_start(s, at, to);
        if a >= to {
            return out;
        }
        proof {
            lemma_word_start(s@, at as int, to as int);
            lemma_word_end(s@, a as int, to as int);
        }
        let b = find_word_end(s, a, to);
        proof {
            let now = words(s@, at as int, to as int);
            let next = words(s@, b as int, to as int);
            assert(now == seq![(a as int, b as int)] + next);
            assert(now[0] == (a as int, b as int));
            assert forall|i: int| 0 <= i < next.len() implies all[out@.len() + 1 + i] == next[i] by {
                assert(now[i + 1] == next[i]);
            }
        }
        out.push((a, b));
        at = b;
    }
}

/// Reads the arguments of a command: the words of `line` that `ws` names.
fn read_tokens(line: &str, ws: &Vec<(usize, usize)>, skip: usize) -> (r: Result<
    Vec<Token>,
    ParseErrorType,
>)
    requires
        skip <= ws@.len(),
        forall|i: int| 0 <= i < ws@.len() ==> (#[trigger] ws@[i]).0 <= ws@[i].1 <= line@.len(),
    ensures
        ({
            let spans = ws@.skip(skip as int).map_values(|w: (usize, usize)| (w.0 as int, w.1 as int));
            match r {
                Ok(tokens) => tokens_of(line@, spans, spans.len()) == Ok::<
                    Seq<TokenView>,
                    ParseFault,
                >(token_views(tokens@)),
                Err(e) => tokens_of(line@, spans, spans.len()) == Err::<Seq<TokenView>, ParseFault>(
                    e@,
                ),
            }
        }),
{
    let ghost spans = ws@.skip(skip as int).map_values(|w: (usize, usize)| (w.0 as int, w.1 as int));
    let mut out: Vec<Token> = Vec::new();
    let mut i: usize = skip;
    assert(token_views(out@) =~= Seq::<TokenView>::empty());
    while i < ws.len()
        invariant
            skip <= i <= ws@.len(),
            spans == ws@.skip(skip as int).map_values(|w: (usize, usize)| (w.0 as int, w.1 as int)),
            forall|k: int| 0 <= k < ws@.len() ==> (#[trigger] ws@[k]).0 <= ws@[k].1 <= line@.len(),
            tokens_of(line@, spans, (i - skip) as nat) == Ok::<Seq<TokenView>, ParseFault>(
                token_views(out@),
            ),
        decreases ws.len() - i,
    {
        let (a, b) = ws[i];
        assert(spans[i - skip] == (a as int, b as int));
        let text = text_of(line, a, b);
        match Token::from_text(text.as_str()) {
            Ok(token) => {
                assert(token_views(out@.push(token)) =~= token_views(out@).push(token@));
                out.push(token);
            },
            Err(e) => {
                proof {
                    assert(tokens_of(line@, spans, (i - skip + 1) as nat) == Err::<
                        Seq<TokenView>,
                        ParseFault,
                    >(e@));
                    lemma_tokens_error_stays(line@, spans, (i - skip + 1) as nat, spans.len());
                }
                return Err(e);
            },
        }
        i += 1;
    }
    Ok(out)
}

/// Once a word cannot be read as a token, the words fail the same way
/// however many are read.
pub proof fn lemma_tokens_error_stays(s: Seq<char>, ws: Seq<(int, int)>, n: nat, m: nat)
    requires
        n <= m,
        tokens_of(s, ws, n) is Err,
    ensures
        tokens_of(s, ws, m) == tokens_of(s, ws, n),
    decreases m,
{
    if n < m {
        lemma_tokens_error_stays(s, ws, n, (m - 1) as nat);
    }
}

/// Once a word cannot be read as an integer, the words fail the same way
/// however many are read.
pub proof fn lemma_integers_error_stays(s: Seq<char>, ws: Seq<(int, int)>, n: nat, m: nat)
    requires
        n <= m,
        integers_of(s, ws, n) is Err,
    ensures
        integers_of(s, ws, m) == integers_of(s, ws, n),
    decreases m,
{
    if n < m {
        lemma_integers_error_stays(s, ws, n, (m - 1) as nat);
    }
}

/// Reads the values of a block that repeats: the words of `line` that `ws`
/// names.
fn read_integers(line: &str, ws: &Vec<(usize, usize)>) -> (r: Result<Vec<BigInt>, ParseErrorType>)
    requires
        forall|i: int| 0 <= i < ws@.len() ==> (#[trigger] ws@[i]).0 <= ws@[i].1 <= line@.len(),
    ensures
        ({
            let spans = ws@.map_values(|w: (usize, usize)| (w.0 as int, w.1 as int));
            match r {
                Ok(terms) => integers_of(line@, spans, spans.len()) == Ok::<Seq<int>, ParseFault>(
                    values(terms@),
                ),
                Err(e) => integers_of(line@, spans, spans.len()) == Err::<Seq<int>, ParseFault>(e@),
            }
        }),
{
    let ghost spans = ws@.map_values(|w: (usize, usize)| (w.0 as int, w.1 as int));
    let mut out: Vec<BigInt> = Vec::new();
    let mut i: usize = 0;
    assert(values(out@) =~= Seq::<int>::empty());
    while i < ws.len()
        invariant
            i <= ws@.len(),
            spans == ws@.map_values(|w: (usize, usize)| (w.0 as int, w.1 as int)),
            forall|k: int| 0 <= k < ws@.len() ==> (#[trigger] ws@[k]).0 <= ws@[k].1 <= line@.len(),
            integers_of(line@, spans, i as nat) == Ok::<Seq<int>, ParseFault>(values(out@)),
        decreases ws.len() - i,
    {
        let (a, b) = ws[i];
        assert(spans[i as int] == (a as int, b as int));
        let text = text_of(line, a, b);
        match parse_integer(text.as_str()) {
            Ok(n) => {
                assert(values(out@.push(n)) =~= values(out@).push(big_value(n)));
                out.push(n);
            },
            Err(e) => {
                proof {
                    assert(integers_of(line@, spans, (i + 1) as nat) == Err::<
                        Seq<int>,
                        ParseFault,
                    >(e@));
                    lemma_integers_error_stays(line@, spans, (i + 1) as nat, spans.len());
                }
                return Err(e);
            },
        }
        i += 1;
    }
    Ok(out)
}

/// The spans of words as pairs of integers.
pub open spec fn spans_of(ws: Seq<(usize, usize)>) -> Seq<(int, int)> {
    ws.map_values(|w: (usize, usize)| (w.0 as int, w.1 as int))
}

/// Reads the head of a block that repeats, its text standing in `line` from
/// `a` up to `b`.
fn read_each(line: &str, chars: &Vec<char>, a: usize, b: usize) -> (r: Result<
    PreprocToken,
    ParseErrorType,
>)
    requires
        chars@ == line@,
        a <= b <= chars@.len(),
    ensures
        match r {
            Ok(t) => each_of(line@, a as int, b as int) == Ok::<PreprocView, ParseFault>(t@),
            Err(e) => each_of(line@, a as int, b as int) == Err::<PreprocView, ParseFault>(e@),
        },
{
    let eq = find_char(chars, '=', a, b);
    if eq >= b {
        return Err(ParseErrorType::InvalidPragma("EACH".to_owned()));
    }
    let (na, nb) = trim(chars, a, eq);
    if chars.len() > 0 && na == nb {
        assert(line@.subrange(na as int, nb as int).len() == 0);
        return Err(ParseErrorType::EmptyIdentifier);
    }
    if !is_identifier_at(chars, na, nb) {
        return Err(ParseErrorType::InvalidIdentifierFormat(text_of(line, na, nb)));
    }
    let (sa, sb) = trim(chars, eq + 1, b);
    if !(sb - sa >= 2 && chars[sa] == '[' && chars[sb - 1] == ']') {
        return Err(ParseErrorType::InvalidPragma("EACH".to_owned()));
    }
    let (ta, tb) = trim(chars, sa + 1, sb - 1);
    let ws = split_words(chars, ta, tb);
    assert(spans_of(ws@) =~= words(line@, ta as int, tb as int));
    match read_integers(line, &ws) {
        Ok(terms) => Ok(PreprocToken::Each(text_of(line, na, nb), terms)),
        Err(e) => Err(e),
    }
}

/// Reads one line, which must hold something and begin with no blank: a
/// pragma after `@`, the definition of a label after `:`, and else a command
/// with its arguments.
pub fn preprocess_line(line: &str, lineno: usize) -> (r: Result<PreprocToken, ParseErrorType>)
    requires
        line@.len() > 0,
        !is_ascii_space(line@[0]),
    ensures
        match r {
            Ok(t) => line_token(line@, lineno) == Ok::<PreprocView, ParseFault>(t@),
            Err(e) => line_token(line@, lineno) == Err::<PreprocView, ParseFault>(e@),
        },
{
    let chars = chars_of(line);
    let n = chars.len();
    if chars[0] == '@' {
        let ws = find_word_end(&chars, 1, n);
        let rest = if ws < n {
            ws + 1
        } else {
            n
        };
        let (a, b) = trim(&chars, rest, n);
        if reads_as(&chars, 1, ws, "EACH") {
            return read_each(line, &chars, a, b);
        } else if reads_as(&chars, 1, ws, "END") {
            if a == b {
                return Ok(PreprocToken::End);
            } else {
                assert(line@.skip(1) =~= line@.subrange(1, n as int));
                return Err(ParseErrorType::InvalidPragma(text_of(line, 1, n)));
            }
        } else {
            return Err(ParseErrorType::InvalidPragma(text_of(line, 1, ws)));
        }
    }
    if chars[0] == ':' {
        assert(line@.skip(1) =~= line@.subrange(1, n as int));
        if n == 1 {
            return Err(ParseErrorType::EmptyIdentifier);
        }
        if !is_identifier_at(&chars, 1, n) {
            return Err(ParseErrorType::InvalidIdentifierFormat(text_of(line, 1, n)));
        }
        let stmt = Statement::Label(text_of(line, 1, n));
        return Ok(PreprocToken::Line(Line { stmt, lineno }));
    }
    let ws = split_words(&chars, 0, n);
    proof {
        lemma_word_start(line@, 0, n as int);
        assert(word_start(line@, 0, n as int) == 0);
        assert(spans_of(ws@) =~= words(line@, 0, n as int));
        assert(spans_of(ws@.skip(1)) =~= words(line@, 0, n as int).skip(1));
    }
    let (a, b) = ws[0];
    let cmd = text_of(line, a, b);
    match read_tokens(line, &ws, 1) {
        Ok(args) => Ok(PreprocToken::Line(Line { stmt: Statement::Cmd { cmd, args }, lineno })),
        Err(e) => Err(e),
    }
}

/// A line without its comment, which begins at the first `#`, and without
/// the white space at its ends.
pub open spec fn clean(s: Seq<char>) -> Seq<char> {
    let c = index_of(s, '#', 0, s.len() as int);
    let a = trim_start(s, 0, c);
    s.subrange(a, trim_end(s, a, c))
}

/// A block that repeats and is still open: its variable, the values that it
/// takes, the statements that came before the block, and the line of its
/// head.
pub struct EachFrame {
    pub name: String,
    pub terms: Vec<BigInt>,
    pub saved: Vec<Line>,
    pub lineno: usize,
}

/// An `EachFrame` as a mathematical value.
pub struct FrameView {
    pub name: Seq<char>,
    pub terms: Seq<int>,
    pub saved: Seq<LineView>,
    pub lineno: usize,
}

impl View for EachFrame {
    type V = FrameView;

    open spec fn view(&self) -> FrameView {
        FrameView {
            name: self.name@,
            terms: values(self.terms@),
            saved: line_views(self.saved@),
            lineno: self.lineno,
        }
    }
}

/// The views of a stack of frames.
pub open spec fn frame_views(stack: Seq<EachFrame>) -> Seq<FrameView> {
    stack.map_values(|f: EachFrame| f@)
}

/// How far the preprocessor has come: the blocks that are open, the
/// innermost last, and the statements of the innermost.
pub struct Preprocessing {
    pub stack: Seq<FrameView>,
    pub commands: Seq<LineView>,
}

/// `commands` with `value` in place of the variable `name`.
pub open spec fn bound_all(commands: Seq<LineView>, name: Seq<char>, value: int) -> Seq<LineView> {
    commands.map_values(|l: LineView| l.bound(name, value))
}

/// The body `commands` of a block written out once for each of `terms`, the
/// variable `name` taking each in turn.
pub open spec fn expanded(commands: Seq<LineView>, name: Seq<char>, terms: Seq<int>) -> Seq<
    LineView,
>
    decreases terms.len(),
{
    if terms.len() == 0 {
        Seq::empty()
    } else {
        expanded(commands, name, terms.drop_last()) + bound_all(commands, name, terms.last())
    }
}

impl Preprocessing {
    /// After one more line, the `lineno`-th: a line that holds nothing but
    /// white space and a comment changes nothing; a statement joins the
    /// statements of the innermost block; the head of a block opens one; the
    /// end of a block closes the innermost, whose body, written out for each
    /// value, joins the statements that came before it.
    pub open spec fn step(self, line: Seq<char>, lineno: usize) -> Result<
        Preprocessing,
        (usize, ParseFault),
    > {
        let text = clean(line);
        if text.len() == 0 {
            Ok(self)
        } else {
            match line_token(text, lineno) {
                Err(e) => Err((lineno, e)),
                Ok(PreprocView::Line(l)) => Ok(
                    Preprocessing { commands: self.commands.push(l), ..self },
                ),
                Ok(PreprocView::Each(name, terms)) => Ok(
                    Preprocessing {
                        stack: self.stack.push(
                            FrameView { name, terms, saved: self.commands, lineno },
                        ),
                        commands: Seq::empty(),
                    },
                ),
                Ok(PreprocView::End) => if self.stack.len() == 0 {
                    Err((lineno, ParseFault::ExtraEnd))
                } else {
                    let f = self.stack.last();
                    Ok(
                        Preprocessing {
                            stack: self.stack.drop_last(),
                            commands: f.saved + expanded(self.commands, f.name, f.terms),
                        },
                    )
                },
            }
        }
    }

    /// After the first `n` of `lines`, numbered from one, or why the first
    /// line that fails cannot be read.
    pub open spec fn run(lines: Seq<Seq<char>>, n: nat) -> Result<Preprocessing, (usize, ParseFault)>
        decreases n,
    {
        if n == 0 {
            Ok(Preprocessing { stack: Seq::empty(), commands: Seq::empty() })
        } else {
            match Preprocessing::run(lines, (n - 1) as nat) {
                Err(e) => Err(e),
                Ok(p) => p.step(lines[n - 1], n as usize),
            }
        }
    }
}

/// The statements that `lines` come to, or why they cannot be read. A block
/// that is still open at the end is an error on the line of its head.
pub open spec fn preprocessed(lines: Seq<Seq<char>>) -> Result<Seq<LineView>, (usize, ParseFault)> {
    match Preprocessing::run(lines, lines.len()) {
        Err(e) => Err(e),
        Ok(p) => if p.stack.len() > 0 {
            Err((p.stack.last().lineno, ParseFault::MissingEnd))
        } else {
            Ok(p.commands)
        },
    }
}

/// Once a line cannot be read, the lines fail the same way however many are
/// read.
pub proof fn lemma_run_error_stays(lines: Seq<Seq<char>>, n: nat, m: nat)
    requires
        n <= m,
        Preprocessing::run(lines, n) is Err,
    ensures
        Preprocessing::run(lines, m) == Preprocessing::run(lines, n),
    decreases m,
{
    if n < m {
        lemma_run_error_stays(lines, n, (m - 1) as nat);
    }
}

/// The texts of a list of strings.
pub open spec fn texts(lines: Seq<String>) -> Seq<Seq<char>> {
    lines.map_values(|l: String| l@)
}

/// Appends the body `commands` of a block, written out for each of `terms`.
fn expand_into(restored: &mut Vec<Line>, commands: &Vec<Line>, name: &str, terms: &Vec<BigInt>)
    ensures
        line_views(final(restored)@) == line_views(old(restored)@) + expanded(
            line_views(commands@),
            name@,
            values(terms@),
        ),
{
    let ghost start = line_views(restored@);
    let ghost body = line_views(commands@);
    let mut t: usize = 0;
    assert(values(terms@).take(0) =~= Seq::<int>::empty());
    assert(line_views(restored@) =~= start + expanded(body, name@, values(terms@).take(0)));
    while t < terms.len()
        invariant
            t <= terms.len(),
            body == line_views(commands@),
            line_views(restored@) == start + expanded(body, name@, values(terms@).take(t as int)),
        decreases terms.len() - t,
    {
        let ghost before = line_views(restored@);
        let ghost value = big_value(terms@[t as int]);
        let mut c: usize = 0;
        assert(bound_all(body, name@, value).take(0) =~= Seq::<LineView>::empty());
        assert(line_views(restored@) =~= before + bound_all(body, name@, value).take(0));
        while c < commands.len()
            invariant
                c <= commands.len(),
                t < terms.len(),
                value == big_value(terms@[t as int]),
                body == line_views(commands@),
                line_views(restored@) == before + bound_all(body, name@, value).take(c as int),
            decreases commands.len() - c,
        {
            let mut cmd = commands[c].copy();
            cmd.bind(name, &terms[t]);
            proof {
                assert(body[c as int] == commands@[c as int]@);
                assert(line_views(restored@.push(cmd)) =~= line_views(restored@).push(cmd@));
                assert(bound_all(body, name@, value).take(c + 1) =~= bound_all(
                    body,
                    name@,
                    value,
                ).take(c as int).push(cmd@));
            }
            restored.push(cmd);
            c += 1;
        }
        proof {
            let done = values(terms@).take(t + 1);
            assert(done.drop_last() =~= values(terms@).take(t as int));
            assert(done.last() == value);
            assert(bound_all(body, name@, value).take(commands@.len() as int) =~= bound_all(
                body,
                name@,
                value,
            ));
            assert(line_views(restored@) =~= start + expanded(body, name@, done));
        }
        t += 1;
    }
    assert(values(terms@).take(terms@.len() as int) =~= values(terms@));
}

/// Reads the lines of a program: comments and empty lines go, each
/// statement keeps the number of its line, and the blocks that repeat are
/// written out.
pub fn preprocess(lines: &[String]) -> (r: Result<Vec<Line>, ParseError>)
    ensures
        match r {
            Ok(out) => preprocessed(texts(lines@)) == Ok::<Seq<LineView>, (usize, ParseFault)>(
                line_views(out@),
            ),
            Err(e) => preprocessed(texts(lines@)) == Err::<Seq<LineView>, (usize, ParseFault)>(e@),
        },
{
    let ghost all = texts(lines@);
    let mut stack: Vec<EachFrame> = Vec::new();
    let mut commands: Vec<Line> = Vec::new();
    let mut i: usize = 0;
    assert(frame_views(stack@) =~= Seq::<FrameView>::empty());
    assert(line_views(commands@) =~= Seq::<LineView>::empty());
    while i < lines.len()
        invariant
            i <= lines.len(),
            all == texts(lines@),
            Preprocessing::run(all, i as nat) == Ok::<Preprocessing, (usize, ParseFault)>(
                Preprocessing { stack: frame_views(stack@), commands: line_views(commands@) },
            ),
        decreases lines.len() - i,
    {
        let lineno = i + 1;
        let line = lines[i].as_str();
        assert(all[i as int] == line@);
        let ghost now = Preprocessing {
            stack: frame_views(stack@),
            commands: line_views(commands@),
        };
        let chars = chars_of(line);
        let comment = find_char(&chars, '#', 0, chars.len());
        let (a, b) = trim(&chars, 0, comment);
        if a < b {
            let text = text_of(line, a, b);
            proof {
                assert(text@ == clean(line@));
                assert(!is_space(text@[0])) by {
                    assert(text@[0] == line@[a as int]);
                    lemma_trimmed_start(line@, 0, comment as int);
                }
            }
            let token = match preprocess_line(text.as_str(), lineno) {
                Ok(token) => token,
                Err(e) => {
                    proof {
                        assert(Preprocessing::run(all, (i + 1) as nat) == Err::<
                            Preprocessing,
                            (usize, ParseFault),
                        >((lineno, e@)));
                        lemma_run_error_stays(all, (i + 1) as nat, all.len());
                    }
                    return Err(e.at(lineno));
                },
            };
            match token {
                PreprocToken::Line(cmd) => {
                    assert(line_views(commands@.push(cmd)) =~= line_views(commands@).push(cmd@));
                    commands.push(cmd);
                },
                PreprocToken::Each(name, terms) => {
                    let frame = EachFrame { name, terms, saved: commands, lineno };
                    assert(frame_views(stack@.push(frame)) =~= frame_views(stack@).push(frame@));
                    stack.push(frame);
                    commands = Vec::new();
                    assert(line_views(commands@) =~= Seq::<LineView>::empty());
                },
                PreprocToken::End => {
                    let frame = match stack.pop() {
                        Some(frame) => frame,
                        None => {
                            proof {
                                assert(Preprocessing::run(all, (i + 1) as nat) == Err::<
                                    Preprocessing,
                                    (usize, ParseFault),
                                >((lineno, ParseFault::ExtraEnd)));
                                lemma_run_error_stays(all, (i + 1) as nat, all.len());
                            }
                            return Err(ParseErrorType::ExtraEnd.at(lineno));
                        },
                    };
                    proof {
                        assert(now.stack.last() == frame@);
                        assert(frame_views(stack@) =~= now.stack.drop_last());
                    }
                    let EachFrame { name, terms, saved, lineno: _ } = frame;
                    let mut restored = saved;
                    expand_into(&mut restored, &commands, name.as_str(), &terms);
                    commands = restored;
                },
            }
        } else {
            assert(clean(line@).len() == 0);
        }
        i += 1;
    }
    match stack.pop() {
        Some(frame) => Err(ParseErrorType::MissingEnd.at(frame.lineno)),
        None => Ok(commands),
    }
}

/// Where the white space at the start of a piece ends, none stands, unless
/// the piece holds nothing else.
pub proof fn lemma_trimmed_start(s: Seq<char>, from: int, to: int)
    requires
        from <= to,
    ensures
        trim_start(s, from, to) < to ==> !is_space(s[trim_start(s, from, to)]),
    decreases to - from,
{
    if from < to && is_space(s[from]) {
        lemma_trimmed_start(s, from + 1, to);
    }
}

} // verus!
