//! The single-pass compiler: a Pratt parser that emits bytecode while it
//! reads the tokens.
//!
//! What the parser and the compiler do is stated by functions of plain
//! values: [`ParserView`] and [`CompilerView`] hold the state, and each
//! executable function is proved to compute the function of the same name on
//! them. Errors are not printed; they are collected as [`Diagnostic`]s.

use vstd::prelude::*;
use vstd::string::*;
use vstd::utf8::*;
use crate::chunk::{
    height, height_after, lemma_height_operands, Chunk, ChunkView, OpCode, MAX_CONSTANTS,
};
use crate::number::{decimal_bits, read_bits, READABLE_LEN};
use crate::scanner::{
    blank_end, count_newlines, lemma_scan_progress, scan, Scan, Scanner, ScannerView, Token,
    TokenType, TokenView,
};
use crate::value::Value;

verus! {

/// A compile error as a plain value.
pub struct DiagnosticView {
    pub line: nat,
    pub location: Option<Seq<u8>>,
    pub message: Seq<char>,
}

/// A compile error: the line, the text of the token at which it was found
/// (`None` at the end of the source), and the message.
#[derive(Debug, Clone, Copy)]
pub struct Diagnostic<'s> {
    pub line: usize,
    pub location: Option<&'s str>,
    pub message: &'static str,
}

impl<'s> View for Diagnostic<'s> {
    type V = DiagnosticView;

    open spec fn view(&self) -> DiagnosticView {
        DiagnosticView {
            line: self.line as nat,
            location: match self.location {
                Some(span) => Some(span.spec_bytes()),
                None => None,
            },
            message: self.message@,
        }
    }
}

/// The diagnostics of a list, as plain values.
pub open spec fn diagnostics_view(list: Seq<Diagnostic<'_>>) -> Seq<DiagnosticView> {
    list.map_values(|d: Diagnostic| d@)
}

/// A token as a plain value, where there is one.
pub open spec fn token_view(token: Option<Token<'_>>) -> Option<TokenView> {
    match token {
        Some(token) => Some(token@),
        None => None,
    }
}

/// What a parser holds.
pub struct ParserView {
    pub scanner: ScannerView,
    pub previous: Option<TokenView>,
    pub current: Option<TokenView>,
    pub had_error: bool,
    pub panic_mode: bool,
    pub diagnostics: Seq<DiagnosticView>,
}

impl ParserView {
    /// What is left to read: the bytes ahead, and the current token.
    pub open spec fn measure(self) -> nat {
        self.scanner.rest.len() + if self.current is Some { 1nat } else { 0nat }
    }

    /// Errors have been found if and only if there are diagnostics, and the
    /// parser is then in panic mode.
    pub open spec fn coherent(self) -> bool {
        &&& self.had_error <==> self.diagnostics.len() > 0
        &&& self.panic_mode == self.had_error
    }

    /// Reports an error at `token`, or at the end of the source where there
    /// is none. In panic mode nothing is reported.
    pub open spec fn error_at(self, token: Option<TokenView>, message: Seq<char>) -> ParserView {
        if self.panic_mode {
            self
        } else {
            ParserView {
                panic_mode: true,
                had_error: true,
                diagnostics: self.diagnostics.push(
                    DiagnosticView {
                        line: match token {
                            Some(token) => token.line,
                            None => self.scanner.line,
                        },
                        location: match token {
                            Some(token) => Some(token.span),
                            None => None,
                        },
                        message,
                    },
                ),
                ..self
            }
        }
    }

    /// Reports an error at the previous token.
    pub open spec fn error(self, message: Seq<char>) -> ParserView {
        self.error_at(self.previous, message)
    }

    /// Reports an error at the current token.
    pub open spec fn error_at_current(self, message: Seq<char>) -> ParserView {
        self.error_at(self.current, message)
    }

    /// Scans until a token or the end of the source is found, which becomes
    /// the current token, and reports every scan error on the way.
    ///
    /// The test on the length is always met where the scanner is well
    /// formed (`lemma_fetch_unfolds`); it shows that the recursion ends.
    pub open spec fn fetch(self) -> ParserView
        decreases self.scanner.rest.len(),
    {
        let (found, scanner) = scan(self.scanner);
        match found {
            Scan::End => ParserView { scanner, current: None, ..self },
            Scan::Token(token) => ParserView { scanner, current: Some(token), ..self },
            Scan::Error(message) => if scanner.rest.len() < self.scanner.rest.len() {
                (ParserView { scanner, ..self }).error_at_current(message).fetch()
            } else {
                self
            },
        }
    }

    /// Makes the current token the previous one and fetches the next.
    pub open spec fn advance(self) -> ParserView {
        (ParserView { previous: self.current, current: None, ..self }).fetch()
    }

    /// Advances over a current token of the given kind; anything else is an
    /// error with the given message.
    pub open spec fn consume(self, token_type: TokenType, message: Seq<char>) -> ParserView {
        if self.current is Some && self.current->0.token_type == token_type {
            self.advance()
        } else {
            self.error_at_current(message)
        }
    }
}


/// If the scanner is well formed, advancing leaves it so, and what is left to
/// read does not grow; it shrinks where there was a current token.
pub proof fn lemma_advance_measure(parser: ParserView)
    requires
        parser.scanner.wf(),
    ensures
        parser.advance().scanner.wf(),
        parser.advance().measure() <= parser.measure(),
        parser.current is Some ==> parser.advance().measure() < parser.measure(),
        parser.advance().previous == parser.current,
        parser.had_error ==> parser.advance().had_error,
        parser.coherent() ==> parser.advance().coherent(),
        parser.panic_mode ==> parser.advance().panic_mode && parser.advance().diagnostics
            == parser.diagnostics,
{
    lemma_fetch_measure(ParserView { previous: parser.current, current: None, ..parser });
}

proof fn lemma_fetch_measure(parser: ParserView)
    requires
        parser.scanner.wf(),
    ensures
        parser.fetch().scanner.wf(),
        parser.fetch().measure() <= parser.scanner.rest.len(),
        parser.fetch().previous == parser.previous,
        parser.had_error ==> parser.fetch().had_error,
        parser.coherent() ==> parser.fetch().coherent(),
        parser.panic_mode ==> parser.fetch().panic_mode && parser.fetch().diagnostics
            == parser.diagnostics,
    decreases parser.scanner.rest.len(),
{
    lemma_scan_progress(parser.scanner);
    let (found, scanner) = scan(parser.scanner);
    if let Scan::Error(message) = found {
        lemma_fetch_measure((ParserView { scanner, ..parser }).error_at_current(message));
    }
}

/// The levels of binding strength, from the loosest to the tightest.
#[derive(PartialEq, Eq, Copy, Clone, Debug, Structural)]
pub enum Precedence {
    /// Below every operator; the end of the source binds like this.
    Lowest,
    Assignment,
    Or,
    And,
    Equality,
    Comparison,
    Term,
    Factor,
    Unary,
    Call,
    Primary,
}

impl Precedence {
    /// The place of the level on the ladder, 0 for `Lowest` and 10 for
    /// `Primary`.
    pub open spec fn level(self) -> nat {
        match self {
            Precedence::Lowest => 0,
            Precedence::Assignment => 1,
            Precedence::Or => 2,
            Precedence::And => 3,
            Precedence::Equality => 4,
            Precedence::Comparison => 5,
            Precedence::Term => 6,
            Precedence::Factor => 7,
            Precedence::Unary => 8,
            Precedence::Call => 9,
            Precedence::Primary => 10,
        }
    }

    /// The next level up. `Lowest` and `Primary` stay where they are.
    pub open spec fn next(self) -> Precedence {
        match self {
            Precedence::Lowest => Precedence::Lowest,
            Precedence::Assignment => Precedence::Or,
            Precedence::Or => Precedence::And,
            Precedence::And => Precedence::Equality,
            Precedence::Equality => Precedence::Comparison,
            Precedence::Comparison => Precedence::Term,
            Precedence::Term => Precedence::Factor,
            Precedence::Factor => Precedence::Unary,
            Precedence::Unary => Precedence::Call,
            Precedence::Call => Precedence::Primary,
            Precedence::Primary => Precedence::Primary,
        }
    }

    /// The level as a number, by which levels are compared.
    pub fn rank(&self) -> (r: u8)
        ensures
            r == self.level(),
    {
        match self {
            Precedence::Lowest => 0,
            Precedence::Assignment => 1,
            Precedence::Or => 2,
            Precedence::And => 3,
            Precedence::Equality => 4,
            Precedence::Comparison => 5,
            Precedence::Term => 6,
            Precedence::Factor => 7,
            Precedence::Unary => 8,
            Precedence::Call => 9,
            Precedence::Primary => 10,
        }
    }

    /// The next level up, at which the right operand of a left-associative
    /// operator is parsed.
    pub fn below(&self) -> (r: Precedence)
        ensures
            r == self.next(),
            r.level() == if self.level() == 0 || self.level() == 10 {
                self.level()
            } else {
                self.level() + 1
            },
    {
        match self {
            Precedence::Lowest => Precedence::Lowest,
            Precedence::Assignment => Precedence::Or,
            Precedence::Or => Precedence::And,
            Precedence::And => Precedence::Equality,
            Precedence::Equality => Precedence::Comparison,
            Precedence::Comparison => Precedence::Term,
            Precedence::Term => Precedence::Factor,
            Precedence::Factor => Precedence::Unary,
            Precedence::Unary => Precedence::Call,
            Precedence::Call => Precedence::Primary,
            Precedence::Primary => Precedence::Primary,
        }
    }
}

/// The productions that a token can start or continue.
#[derive(PartialEq, Eq, Copy, Clone, Debug, Structural)]
pub enum ParseFn {
    Grouping,
    Unary,
    Binary,
    Number,
    Literal,
}

/// What the parser does with a token: the production it starts, the
/// production it continues, and how tightly it binds as an infix operator.
#[derive(PartialEq, Eq, Copy, Clone, Debug, Structural)]
pub struct ParseRule {
    pub prefix: Option<ParseFn>,
    pub infix: Option<ParseFn>,
    pub precedence: Precedence,
}

/// The rule of each kind of token.
pub open spec fn rule(token_type: TokenType) -> ParseRule {
    match token_type {
        TokenType::LeftParen => ParseRule {
            prefix: Some(ParseFn::Grouping),
            infix: None,
            precedence: Precedence::Lowest,
        },
        TokenType::Minus => ParseRule {
            prefix: Some(ParseFn::Unary),
            infix: Some(ParseFn::Binary),
            precedence: Precedence::Term,
        },
        TokenType::Plus => ParseRule {
            prefix: None,
            infix: Some(ParseFn::Binary),
            precedence: Precedence::Term,
        },
        TokenType::Slash | TokenType::Star => ParseRule {
            prefix: None,
            infix: Some(ParseFn::Binary),
            precedence: Precedence::Factor,
        },
        TokenType::Number => ParseRule {
            prefix: Some(ParseFn::Number),
            infix: None,
            precedence: Precedence::Lowest,
        },
        TokenType::False | TokenType::True | TokenType::Nil => ParseRule {
            prefix: Some(ParseFn::Literal),
            infix: None,
            precedence: Precedence::Lowest,
        },
        TokenType::Bang => ParseRule {
            prefix: Some(ParseFn::Unary),
            infix: None,
            precedence: Precedence::Lowest,
        },
        TokenType::BangEqual | TokenType::EqualEqual => ParseRule {
            prefix: None,
            infix: Some(ParseFn::Binary),
            precedence: Precedence::Equality,
        },
        TokenType::Greater | TokenType::GreaterEqual | TokenType::Less | TokenType::LessEqual => ParseRule {
            prefix: None,
            infix: Some(ParseFn::Binary),
            precedence: Precedence::Comparison,
        },
        _ => ParseRule { prefix: None, infix: None, precedence: Precedence::Lowest },
    }
}

impl ParseRule {
    /// Looks up the rule of a kind of token.
    pub fn of(token_type: TokenType) -> (r: ParseRule)
        ensures
            r == rule(token_type),
    {
        match token_type {
            TokenType::LeftParen => ParseRule {
                prefix: Some(ParseFn::Grouping),
                infix: None,
                precedence: Precedence::Lowest,
            },
            TokenType::Minus => ParseRule {
                prefix: Some(ParseFn::Unary),
                infix: Some(ParseFn::Binary),
                precedence: Precedence::Term,
            },
            TokenType::Plus => ParseRule {
                prefix: None,
                infix: Some(ParseFn::Binary),
                precedence: Precedence::Term,
            },
            TokenType::Slash | TokenType::Star => ParseRule {
                prefix: None,
                infix: Some(ParseFn::Binary),
                precedence: Precedence::Factor,
            },
            TokenType::Number => ParseRule {
                prefix: Some(ParseFn::Number),
                infix: None,
                precedence: Precedence::Lowest,
            },
            TokenType::False | TokenType::True | TokenType::Nil => ParseRule {
                prefix: Some(ParseFn::Literal),
                infix: None,
                precedence: Precedence::Lowest,
            },
            TokenType::Bang => ParseRule {
                prefix: Some(ParseFn::Unary),
                infix: None,
                precedence: Precedence::Lowest,
            },
            TokenType::BangEqual | TokenType::EqualEqual => ParseRule {
                prefix: None,
                infix: Some(ParseFn::Binary),
                precedence: Precedence::Equality,
            },
            TokenType::Greater
            | TokenType::GreaterEqual
            | TokenType::Less
            | TokenType::LessEqual => ParseRule {
                prefix: None,
                infix: Some(ParseFn::Binary),
                precedence: Precedence::Comparison,
            },
            _ => ParseRule { prefix: None, infix: None, precedence: Precedence::Lowest },
        }
    }
}

/// The number that a literal stands for: what `rustc_apfloat` reads from its
/// text, or `None` where the text is too long to hand over or is rejected.
pub open spec fn number_value(span: Seq<u8>) -> Option<u64> {
    if span.len() <= READABLE_LEN {
        decimal_bits(decode_utf8(span))
    } else {
        None
    }
}

/// The instructions of a binary operator, which run after both operands.
/// `!=`, `>=` and `<=` are the negations of `==`, `<` and `>`.
pub open spec fn operator_code(operator: TokenType) -> Seq<OpCode> {
    match operator {
        TokenType::Plus => seq![OpCode::Add],
        TokenType::Minus => seq![OpCode::Sub],
        TokenType::Star => seq![OpCode::Mul],
        TokenType::Slash => seq![OpCode::Div],
        TokenType::BangEqual => seq![OpCode::Equal, OpCode::Not],
        TokenType::EqualEqual => seq![OpCode::Equal],
        TokenType::Greater => seq![OpCode::Greater],
        TokenType::GreaterEqual => seq![OpCode::Less, OpCode::Not],
        TokenType::Less => seq![OpCode::Less],
        TokenType::LessEqual => seq![OpCode::Greater, OpCode::Not],
        _ => seq![],
    }
}

/// What a compiler holds while it compiles: the parser and the chunk that it
/// fills.
pub struct CompilerView {
    pub parser: ParserView,
    pub chunk: ChunkView,
}

impl CompilerView {
    /// The scanner is well formed and the record of errors is coherent.
    pub open spec fn wf(self) -> bool {
        self.parser.scanner.wf() && self.parser.coherent()
    }

    /// What is left to read.
    pub open spec fn measure(self) -> nat {
        self.parser.measure()
    }

    /// Reports an error at the previous token.
    pub open spec fn error(self, message: Seq<char>) -> CompilerView {
        CompilerView { parser: self.parser.error(message), ..self }
    }

    /// The line of the previous token, 0 where there is none.
    pub open spec fn line(self) -> usize {
        match self.parser.previous {
            Some(token) => token.line as usize,
            None => 0,
        }
    }

    /// Appends an instruction, on the line of the previous token.
    pub open spec fn emit(self, op: OpCode) -> CompilerView {
        CompilerView { chunk: self.chunk.write(op, self.line()), ..self }
    }

    /// Appends the instructions of a binary operator: those of
    /// [`operator_code`] (`lemma_emit_operator`).
    pub open spec fn emit_operator(self, operator: TokenType) -> CompilerView {
        match operator {
            TokenType::Plus => self.emit(OpCode::Add),
            TokenType::Minus => self.emit(OpCode::Sub),
            TokenType::Star => self.emit(OpCode::Mul),
            TokenType::Slash => self.emit(OpCode::Div),
            TokenType::BangEqual => self.emit(OpCode::Equal).emit(OpCode::Not),
            TokenType::EqualEqual => self.emit(OpCode::Equal),
            TokenType::Greater => self.emit(OpCode::Greater),
            TokenType::GreaterEqual => self.emit(OpCode::Less).emit(OpCode::Not),
            TokenType::Less => self.emit(OpCode::Less),
            TokenType::LessEqual => self.emit(OpCode::Greater).emit(OpCode::Not),
            _ => self,
        }
    }

    /// Adds a constant to the pool and appends the instruction that pushes
    /// it. A pool that is full is an error, and the instruction then names
    /// constant 0.
    pub open spec fn emit_constant(self, value: Value) -> CompilerView {
        if self.chunk.constants.len() < MAX_CONSTANTS {
            (CompilerView { chunk: self.chunk.add_constant(value), ..self }).emit(
                OpCode::Constant(self.chunk.constants.len() as u8),
            )
        } else {
            self.error("Too many constants in one chunk"@).emit(OpCode::Constant(0))
        }
    }

    /// The end of a number literal: its value becomes a constant; a literal
    /// without a value is an error.
    pub open spec fn number_literal(self, parsed: Option<u64>) -> CompilerView {
        match parsed {
            Some(bits) => self.emit_constant(Value::Number(bits)),
            None => self.error("Invalid number"@),
        }
    }

    /// A number literal, which is the previous token.
    pub open spec fn number(self) -> CompilerView {
        match self.parser.previous {
            Some(token) => self.number_literal(number_value(token.span)),
            None => self,
        }
    }

    /// `nil`, `true` or `false`, which is the previous token.
    pub open spec fn literal(self) -> CompilerView {
        match self.parser.previous {
            Some(token) => match token.token_type {
                TokenType::False => self.emit(OpCode::False),
                TokenType::True => self.emit(OpCode::True),
                TokenType::Nil => self.emit(OpCode::Nil),
                _ => self,
            },
            None => self,
        }
    }

    /// An expression in parentheses, of which the opening one is the previous
    /// token.
    pub open spec fn grouping(self) -> CompilerView
        decreases self.measure(), 2int,
    {
        let inner = self.expression();
        CompilerView {
            parser: inner.parser.consume(TokenType::RightParen, "Expected ')' after expression"@),
            ..inner
        }
    }

    /// An operand with a prefix operator, which is the previous token.
    pub open spec fn unary(self) -> CompilerView
        decreases self.measure(), 1int,
    {
        let operand = self.parse_precedence(Precedence::Unary);
        match self.parser.previous {
            Some(token) => match token.token_type {
                TokenType::Bang => operand.emit(OpCode::Not),
                TokenType::Minus => operand.emit(OpCode::Negate),
                _ => operand,
            },
            None => operand,
        }
    }

    /// The right operand of an infix operator, which is the previous token,
    /// and the operator's instructions. The operand is parsed one level up,
    /// so the operators associate to the left.
    pub open spec fn binary(self) -> CompilerView
        decreases self.measure(), 1int,
    {
        match self.parser.previous {
            Some(token) => self.parse_precedence(
                rule(token.token_type).precedence.next(),
            ).emit_operator(token.token_type),
            None => self,
        }
    }

    /// The production `f`.
    pub open spec fn production(self, f: ParseFn) -> CompilerView
        decreases self.measure(), 3int,
    {
        match f {
            ParseFn::Grouping => self.grouping(),
            ParseFn::Unary => self.unary(),
            ParseFn::Binary => self.binary(),
            ParseFn::Number => self.number(),
            ParseFn::Literal => self.literal(),
        }
    }

    /// An expression whose operators bind at least as tightly as
    /// `precedence`: advance, run the prefix production of the token just
    /// passed, then take infix operators as long as they bind tightly enough.
    /// A token that starts no expression, or the end of the source, is the
    /// error "Expected expression".
    ///
    /// The tests on `measure` are always met where the scanner is well
    /// formed (`lemma_parse_precedence_unfolds`); they show that the
    /// recursion ends.
    pub open spec fn parse_precedence(self, precedence: Precedence) -> CompilerView
        decreases self.measure(), 0int,
    {
        let start = CompilerView { parser: self.parser.advance(), ..self };
        match start.parser.previous {
            Some(token) => match rule(token.token_type).prefix {
                Some(f) => if start.measure() < self.measure() {
                    let operand = start.production(f);
                    if operand.measure() <= start.measure() {
                        operand.infix_loop(precedence)
                    } else {
                        operand
                    }
                } else {
                    start
                },
                None => start.error("Expected expression"@),
            },
            None => start.error("Expected expression"@),
        }
    }

    /// Takes infix operators as long as the current token binds at least as
    /// tightly as `precedence`; the end of the source binds like `Lowest`.
    ///
    /// The tests on `measure` are always met where the scanner is well
    /// formed (`lemma_infix_loop_unfolds`); they show that the recursion
    /// ends.
    pub open spec fn infix_loop(self, precedence: Precedence) -> CompilerView
        decreases self.measure(), 4int,
    {
        let binding = match self.parser.current {
            Some(token) => rule(token.token_type).precedence,
            None => Precedence::Lowest,
        };
        if precedence.level() > binding.level() {
            self
        } else {
            let start = CompilerView { parser: self.parser.advance(), ..self };
            match start.parser.previous {
                Some(token) => if start.measure() < self.measure() {
                    let operand = match rule(token.token_type).infix {
                        Some(f) => start.production(f),
                        None => start,
                    };
                    if operand.measure() <= start.measure() {
                        operand.infix_loop(precedence)
                    } else {
                        operand
                    }
                } else {
                    start
                },
                None => start,
            }
        }
    }

    /// An expression.
    pub open spec fn expression(self) -> CompilerView
        decreases self.measure(), 1int,
    {
        self.parse_precedence(Precedence::Assignment)
    }

    /// A whole program: one expression, an error where a token is left over,
    /// and a final `Return`, in a fresh chunk.
    pub open spec fn compile(self) -> CompilerView {
        let parsed = (CompilerView {
            chunk: ChunkView::empty(),
            ..self
        }).expression();
        let checked = if parsed.parser.current is Some {
            CompilerView {
                parser: parsed.parser.error_at_current("Expected end of expression"@),
                ..parsed
            }
        } else {
            parsed
        };
        checked.emit(OpCode::Return)
    }
}


/// Parsing leaves the scanner well formed, never moves back, and keeps an
/// error once found. After an error nothing more is reported.
pub proof fn lemma_parse_precedence(c: CompilerView, precedence: Precedence)
    requires
        c.wf(),
    ensures
        c.parse_precedence(precedence).wf(),
        c.parse_precedence(precedence).measure() <= c.measure(),
        c.parser.had_error ==> c.parse_precedence(precedence).parser.had_error,
        c.parser.had_error ==> c.parse_precedence(precedence).parser.diagnostics == c.parser.diagnostics,
    decreases c.measure(), 0int,
{
    lemma_advance_measure(c.parser);
    let start = CompilerView { parser: c.parser.advance(), ..c };
    match start.parser.previous {
        Some(token) => match rule(token.token_type).prefix {
            Some(f) => {
                lemma_production(start, f);
                lemma_infix_loop(start.production(f), precedence);
            },
            None => {},
        },
        None => {},
    }
}

pub proof fn lemma_production(c: CompilerView, f: ParseFn)
    requires
        c.wf(),
    ensures
        c.production(f).wf(),
        c.production(f).measure() <= c.measure(),
        c.parser.had_error ==> c.production(f).parser.had_error,
        c.parser.had_error ==> c.production(f).parser.diagnostics == c.parser.diagnostics,
    decreases c.measure(), 3int,
{
    match f {
        ParseFn::Grouping => {
            lemma_parse_precedence(c, Precedence::Assignment);
            lemma_advance_measure(c.expression().parser);
        },
        ParseFn::Unary => {
            lemma_parse_precedence(c, Precedence::Unary);
        },
        ParseFn::Binary => {
            if let Some(token) = c.parser.previous {
                lemma_parse_precedence(c, rule(token.token_type).precedence.next());
            }
        },
        ParseFn::Number => {},
        ParseFn::Literal => {},
    }
}

pub proof fn lemma_infix_loop(c: CompilerView, precedence: Precedence)
    requires
        c.wf(),
    ensures
        c.infix_loop(precedence).wf(),
        c.infix_loop(precedence).measure() <= c.measure(),
        c.parser.had_error ==> c.infix_loop(precedence).parser.had_error,
        c.parser.had_error ==> c.infix_loop(precedence).parser.diagnostics == c.parser.diagnostics,
    decreases c.measure(), 4int,
{
    let binding = match c.parser.current {
        Some(token) => rule(token.token_type).precedence,
        None => Precedence::Lowest,
    };
    if precedence.level() <= binding.level() {
        lemma_advance_measure(c.parser);
        let start = CompilerView { parser: c.parser.advance(), ..c };
        if let Some(token) = start.parser.previous {
            let operand = match rule(token.token_type).infix {
                Some(f) => start.production(f),
                None => start,
            };
            if let Some(f) = rule(token.token_type).infix {
                lemma_production(start, f);
            }
            lemma_infix_loop(operand, precedence);
        }
    }
}


/// Where the scanner is well formed, the tests on `measure` in
/// [`CompilerView::parse_precedence`] are met: an expression is the prefix
/// production of its first token and the infix operators that follow.
pub proof fn lemma_parse_precedence_unfolds(c: CompilerView, precedence: Precedence)
    requires
        c.wf(),
    ensures
        c.parse_precedence(precedence) == ({
            let start = CompilerView { parser: c.parser.advance(), ..c };
            match start.parser.previous {
                Some(token) => match rule(token.token_type).prefix {
                    Some(f) => start.production(f).infix_loop(precedence),
                    None => start.error("Expected expression"@),
                },
                None => start.error("Expected expression"@),
            }
        }),
{
    lemma_advance_measure(c.parser);
    let start = CompilerView { parser: c.parser.advance(), ..c };
    if let Some(token) = start.parser.previous {
        if let Some(f) = rule(token.token_type).prefix {
            lemma_production(start, f);
        }
    }
}

/// Where the scanner is well formed, the tests on `measure` in
/// [`CompilerView::infix_loop`] are met: the loop takes one operator that
/// binds tightly enough, runs its infix production, and goes on.
pub proof fn lemma_infix_loop_unfolds(c: CompilerView, precedence: Precedence)
    requires
        c.wf(),
    ensures
        c.infix_loop(precedence) == ({
            let binding = match c.parser.current {
                Some(token) => rule(token.token_type).precedence,
                None => Precedence::Lowest,
            };
            let start = CompilerView { parser: c.parser.advance(), ..c };
            if precedence.level() > binding.level() {
                c
            } else {
                match start.parser.previous {
                    Some(token) => match rule(token.token_type).infix {
                        Some(f) => start.production(f).infix_loop(precedence),
                        None => start.infix_loop(precedence),
                    },
                    None => start,
                }
            }
        }),
{
    lemma_advance_measure(c.parser);
    let start = CompilerView { parser: c.parser.advance(), ..c };
    if let Some(token) = start.parser.previous {
        if let Some(f) = rule(token.token_type).infix {
            lemma_production(start, f);
        }
    }
}

/// Where the scanner is well formed, the test on the length in
/// [`ParserView::fetch`] is met: after a scan error, the search for a token
/// goes on.
pub proof fn lemma_fetch_unfolds(parser: ParserView)
    requires
        parser.scanner.wf(),
    ensures
        parser.fetch() == ({
            let (found, scanner) = scan(parser.scanner);
            match found {
                Scan::End => ParserView { scanner, current: None, ..parser },
                Scan::Token(token) => ParserView { scanner, current: Some(token), ..parser },
                Scan::Error(message) => (ParserView { scanner, ..parser }).error_at_current(
                    message,
                ).fetch(),
            }
        }),
{
    lemma_scan_progress(parser.scanner);
}

/// Where an error is reported.
enum ErrorSource {
    Current,
    Previous,
}

pub struct Parser<'s> {
    pub scanner: Scanner<'s>,
    pub previous: Option<Token<'s>>,
    pub current: Option<Token<'s>>,
    pub had_error: bool,
    pub panic_mode: bool,
    pub diagnostics: Vec<Diagnostic<'s>>,
}

impl<'s> View for Parser<'s> {
    type V = ParserView;

    open spec fn view(&self) -> ParserView {
        ParserView {
            scanner: self.scanner@,
            previous: token_view(self.previous),
            current: token_view(self.current),
            had_error: self.had_error,
            panic_mode: self.panic_mode,
            diagnostics: diagnostics_view(self.diagnostics@),
        }
    }
}

impl ParserView {
    /// A parser at the start of a source, before the first token is fetched.
    pub open spec fn start(source: Seq<u8>) -> ParserView {
        ParserView {
            scanner: ScannerView { rest: source, line: 1 },
            previous: None,
            current: None,
            had_error: false,
            panic_mode: false,
            diagnostics: seq![],
        }
    }
}

impl<'s> Parser<'s> {
    /// A parser at the start of `source`, with no token fetched yet.
    ///
    /// The bound on the length leaves the line counter room for every line
    /// feed. Every string meets it: none is longer than `isize::MAX` bytes.
    pub fn new(source: &'s str) -> (parser: Parser<'s>)
        requires
            source.spec_bytes().len() < usize::MAX,
        ensures
            parser@ == ParserView::start(source.spec_bytes()),
            parser@.scanner.wf(),
    {
        let scanner = Scanner::new(source);
        let parser = Parser {
            scanner,
            previous: None,
            current: None,
            had_error: false,
            panic_mode: false,
            diagnostics: Vec::new(),
        };
        assert(parser@.diagnostics =~= Seq::<DiagnosticView>::empty());
        parser
    }

    /// Makes the current token the previous one and scans for the next,
    /// reporting the scan errors on the way.
    pub fn advance(&mut self)
        requires
            old(self)@.scanner.wf(),
        ensures
            final(self)@ == old(self)@.advance(),
            final(self)@.scanner.wf(),
            old(self)@.coherent() ==> final(self)@.coherent(),
    {
        proof {
            lemma_advance_measure(self@);
        }
        self.previous = self.current.take();
        loop
            invariant_except_break
                self@.scanner.wf(),
                self@.fetch() == old(self)@.advance(),
            ensures
                self@.scanner.wf(),
                self@ == old(self)@.advance(),
            decreases self@.scanner.rest.len(),
        {
            proof {
                lemma_scan_progress(self@.scanner);
            }
            match self.scanner.scan_token() {
                Ok(token) => {
                    self.current = token;
                    break;
                },
                Err(message) => {
                    self.error_at_current(message);
                },
            }
        }
    }

    /// Advances over a current token of the given kind; anything else is an
    /// error with the given message.
    pub fn consume(&mut self, token_type: TokenType, message: &'static str)
        requires
            old(self)@.scanner.wf(),
        ensures
            final(self)@ == old(self)@.consume(token_type, message@),
            final(self)@.scanner.wf(),
            old(self)@.coherent() ==> final(self)@.coherent(),
    {
        let matches = match self.current {
            Some(token) => token.token_type == token_type,
            None => false,
        };
        if matches {
            self.advance();
        } else {
            self.error_at_current(message);
        }
    }

    /// Reports an error at the previous token.
    pub fn error(&mut self, message: &'static str)
        ensures
            final(self)@ == old(self)@.error(message@),
    {
        self.error_at(ErrorSource::Previous, message);
    }

    /// Reports an error at the current token.
    pub fn error_at_current(&mut self, message: &'static str)
        ensures
            final(self)@ == old(self)@.error_at_current(message@),
    {
        self.error_at(ErrorSource::Current, message);
    }

    /// Records an error at a token, or at the end of the source where there
    /// is none, unless the parser is in panic mode; then enters panic mode.
    fn error_at(&mut self, source: ErrorSource, message: &'static str)
        ensures
            final(self)@ == old(self)@.error_at(
                match source {
                    ErrorSource::Current => old(self)@.current,
                    ErrorSource::Previous => old(self)@.previous,
                },
                message@,
            ),
    {
        if self.panic_mode {
            return;
        }
        self.panic_mode = true;
        let token = match source {
            ErrorSource::Current => self.current,
            ErrorSource::Previous => self.previous,
        };
        let diagnostic = match token {
            Some(token) => Diagnostic { line: token.line, location: Some(token.span), message },
            None => Diagnostic { line: self.scanner.line(), location: None, message },
        };
        self.diagnostics.push(diagnostic);
        self.had_error = true;
        assert(diagnostics_view(self.diagnostics@) =~= diagnostics_view(old(self).diagnostics@).push(
            diagnostic@,
        ));
    }
}


impl CompilerView {
    /// A compiler at the start of a source: the first token is fetched and
    /// the chunk is empty.
    pub open spec fn start(source: Seq<u8>) -> CompilerView {
        CompilerView {
            parser: ParserView::start(source).advance(),
            chunk: ChunkView::empty(),
        }
    }
}

/// What compiling a source yields: the chunk, or the errors in the order in
/// which they were found.
pub open spec fn compile_source(source: Seq<u8>) -> Result<ChunkView, Seq<DiagnosticView>> {
    let end = CompilerView::start(source).compile();
    if end.parser.had_error {
        Err(end.parser.diagnostics)
    } else {
        Ok(end.chunk)
    }
}

pub struct Compiler<'s> {
    parser: Parser<'s>,
    compiling_chunk: Option<Chunk>,
}

impl<'s> View for Compiler<'s> {
    type V = CompilerView;

    closed spec fn view(&self) -> CompilerView {
        CompilerView {
            parser: self.parser@,
            chunk: match self.compiling_chunk {
                Some(chunk) => chunk@,
                None => ChunkView::empty(),
            },
        }
    }
}

impl<'s> Compiler<'s> {
    /// True while the compiler holds the chunk that it fills.
    pub closed spec fn compiling(&self) -> bool {
        self.compiling_chunk is Some
    }

    /// A compiler at the start of `source`, with the first token fetched.
    ///
    /// The bound on the length leaves the line counter room for every line
    /// feed. Every string meets it: none is longer than `isize::MAX` bytes.
    pub fn new(source: &'s str) -> (compiler: Compiler<'s>)
        requires
            source.spec_bytes().len() < usize::MAX,
        ensures
            compiler@ == CompilerView::start(source.spec_bytes()),
            compiler@.wf(),
    {
        let mut parser = Parser::new(source);
        parser.advance();
        Compiler { parser, compiling_chunk: None }
    }

    /// Compiles one expression into a fresh chunk that ends with `Return`.
    /// It fails if and only if an error was found; the errors are then in
    /// [`Compiler::diagnostics`].
    pub fn compile(&mut self) -> (r: Result<Chunk, ()>)
        requires
            old(self)@.wf(),
        ensures
            final(self)@.parser == old(self)@.compile().parser,
            final(self)@.wf(),
            r is Ok <==> !old(self)@.compile().parser.had_error,
            r is Ok ==> r->Ok_0@ == old(self)@.compile().chunk,
            r is Ok ==> r->Ok_0@.wf() && r->Ok_0@.operands_valid() && r->Ok_0@.is_expression(),
            r is Ok ==> !final(self).compiling(),
            r is Err ==> final(self)@.parser.diagnostics.len() > 0 && final(self)@.chunk == old(
                self,
            )@.compile().chunk,
    {
        proof {
            lemma_compile_is_expression(self@);
        }
        self.compiling_chunk = Some(Chunk::new());
        self.expression();
        if self.parser.current.is_some() {
            self.parser.error_at_current("Expected end of expression");
        }
        self.end_compiler();
        if self.parser.had_error {
            Err(())
        } else {
            self.compiling_chunk.take().ok_or(())
        }
    }

    /// The errors found so far, in the order in which they were found.
    pub fn diagnostics(&self) -> (list: &Vec<Diagnostic<'s>>)
        ensures
            diagnostics_view(list@) == self@.parser.diagnostics,
    {
        &self.parser.diagnostics
    }

    /// Gives up the compiler for the errors that it found.
    pub fn into_diagnostics(self) -> (list: Vec<Diagnostic<'s>>)
        ensures
            diagnostics_view(list@) == self@.parser.diagnostics,
    {
        self.parser.diagnostics
    }

    fn emit(&mut self, op: OpCode)
        requires
            old(self).compiling(),
        ensures
            final(self).compiling(),
            final(self)@ == old(self)@.emit(op),
    {
        let line = match self.parser.previous {
            Some(token) => token.line,
            None => 0,
        };
        self.current_chunk().write(op, line);
    }

    fn emit_return(&mut self)
        requires
            old(self).compiling(),
        ensures
            final(self).compiling(),
            final(self)@ == old(self)@.emit(OpCode::Return),
    {
        self.emit(OpCode::Return);
    }

    fn emit_constant(&mut self, value: Value)
        requires
            old(self).compiling(),
        ensures
            final(self).compiling(),
            final(self)@ == old(self)@.emit_constant(value),
    {
        let constant = self.make_constant(value);
        self.emit(OpCode::Constant(constant));
    }

    /// Adds a constant to the pool and returns its index. A pool that is
    /// full is an error, and the index is then 0.
    fn make_constant(&mut self, value: Value) -> (id: u8)
        requires
            old(self).compiling(),
        ensures
            final(self).compiling(),
            old(self)@.chunk.constants.len() < MAX_CONSTANTS ==> final(self)@ == (CompilerView {
                chunk: old(self)@.chunk.add_constant(value),
                ..old(self)@
            }) && id as int == old(self)@.chunk.constants.len(),
            old(self)@.chunk.constants.len() >= MAX_CONSTANTS ==> final(self)@ == old(self)@.error(
                "Too many constants in one chunk"@,
            ) && id == 0,
    {
        if self.current_chunk().constants().len() < MAX_CONSTANTS {
            self.current_chunk().add_constant(value)
        } else {
            self.parser.error("Too many constants in one chunk");
            0
        }
    }

    fn end_compiler(&mut self)
        requires
            old(self).compiling(),
        ensures
            final(self).compiling(),
            final(self)@ == old(self)@.emit(OpCode::Return),
    {
        self.emit_return();
    }

    fn binary(&mut self)
        requires
            old(self).compiling(),
            old(self)@.wf(),
            old(self)@.parser.previous is Some,
            rule(old(self)@.parser.previous->0.token_type).infix == Some(ParseFn::Binary),
        ensures
            final(self).compiling(),
            final(self)@ == old(self)@.binary(),
            final(self)@.wf(),
        decreases old(self)@.measure(), 1int,
    {
        let operator_type = self.parser.previous.unwrap().token_type;
        let rule = ParseRule::of(operator_type);
        proof {
            lemma_parse_precedence(self@, rule.precedence.next());
        }
        self.parse_precedence(rule.precedence.below());
        match operator_type {
            TokenType::Plus => self.emit(OpCode::Add),
            TokenType::Minus => self.emit(OpCode::Sub),
            TokenType::Star => self.emit(OpCode::Mul),
            TokenType::Slash => self.emit(OpCode::Div),
            TokenType::BangEqual => {
                self.emit(OpCode::Equal);
                self.emit(OpCode::Not);
            },
            TokenType::EqualEqual => self.emit(OpCode::Equal),
            TokenType::Greater => self.emit(OpCode::Greater),
            TokenType::GreaterEqual => {
                self.emit(OpCode::Less);
                self.emit(OpCode::Not);
            },
            TokenType::Less => self.emit(OpCode::Less),
            TokenType::LessEqual => {
                self.emit(OpCode::Greater);
                self.emit(OpCode::Not);
            },
            _ => vstd::pervasive::unreached(),
        }
    }

    fn literal(&mut self)
        requires
            old(self).compiling(),
            old(self)@.parser.previous is Some,
            rule(old(self)@.parser.previous->0.token_type).prefix == Some(ParseFn::Literal),
        ensures
            final(self).compiling(),
            final(self)@ == old(self)@.literal(),
    {
        match self.parser.previous.unwrap().token_type {
            TokenType::False => self.emit(OpCode::False),
            TokenType::True => self.emit(OpCode::True),
            TokenType::Nil => self.emit(OpCode::Nil),
            _ => vstd::pervasive::unreached(),
        }
    }

    fn grouping(&mut self)
        requires
            old(self).compiling(),
            old(self)@.wf(),
        ensures
            final(self).compiling(),
            final(self)@ == old(self)@.grouping(),
            final(self)@.wf(),
        decreases old(self)@.measure(), 2int,
    {
        self.expression();
        self.parser.consume(TokenType::RightParen, "Expected ')' after expression");
    }

    fn number(&mut self)
        requires
            old(self).compiling(),
            old(self)@.parser.previous is Some,
        ensures
            final(self).compiling(),
            final(self)@ == old(self)@.number(),
    {
        let span = self.parser.previous.unwrap().span;
        match literal_constant(read_number(span)) {
            Ok(value) => self.emit_constant(value),
            Err(message) => self.parser.error(message),
        }
    }

    fn unary(&mut self)
        requires
            old(self).compiling(),
            old(self)@.wf(),
            old(self)@.parser.previous is Some,
            rule(old(self)@.parser.previous->0.token_type).prefix == Some(ParseFn::Unary),
        ensures
            final(self).compiling(),
            final(self)@ == old(self)@.unary(),
            final(self)@.wf(),
        decreases old(self)@.measure(), 1int,
    {
        let operator_type = self.parser.previous.unwrap().token_type;
        self.parse_precedence(Precedence::Unary);
        match operator_type {
            TokenType::Bang => self.emit(OpCode::Not),
            TokenType::Minus => self.emit(OpCode::Negate),
            _ => vstd::pervasive::unreached(),
        }
    }

    /// Runs the production `f`, which the rule of the previous token names.
    fn production(&mut self, f: ParseFn)
        requires
            old(self).compiling(),
            old(self)@.wf(),
            old(self)@.parser.previous is Some,
            rule(old(self)@.parser.previous->0.token_type).prefix == Some(f) || rule(
                old(self)@.parser.previous->0.token_type,
            ).infix == Some(f),
        ensures
            final(self).compiling(),
            final(self)@ == old(self)@.production(f),
            final(self)@.wf(),
        decreases old(self)@.measure(), 3int,
    {
        match f {
            ParseFn::Grouping => self.grouping(),
            ParseFn::Unary => self.unary(),
            ParseFn::Binary => self.binary(),
            ParseFn::Number => self.number(),
            ParseFn::Literal => self.literal(),
        }
    }

    fn parse_precedence(&mut self, precedence: Precedence)
        requires
            old(self).compiling(),
            old(self)@.wf(),
        ensures
            final(self).compiling(),
            final(self)@ == old(self)@.parse_precedence(precedence),
            final(self)@.wf(),
        decreases old(self)@.measure(), 0int,
    {
        proof {
            lemma_advance_measure(self@.parser);
        }
        self.parser.advance();
        let token_type = match self.parser.previous {
            Some(token) => token.token_type,
            None => {
                self.parser.error("Expected expression");
                return;
            },
        };
        let rule = ParseRule::of(token_type);
        match rule.prefix {
            Some(f) => {
                let ghost start = self@;
                self.production(f);
                proof {
                    lemma_production(start, f);
                }
                loop
                    invariant_except_break
                        self.compiling(),
                        self@.wf(),
                        self@.measure() < old(self)@.measure(),
                        self@.infix_loop(precedence) == old(self)@.parse_precedence(precedence),
                    ensures
                        self.compiling(),
                        self@.wf(),
                        self@ == old(self)@.parse_precedence(precedence),
                    decreases self@.measure(),
                {
                    let current_prec = match self.parser.current {
                        Some(token) => ParseRule::of(token.token_type).precedence,
                        None => Precedence::Lowest,
                    };
                    if precedence.rank() > current_prec.rank() {
                        break;
                    }
                    let ghost before = self@;
                    proof {
                        lemma_advance_measure(self@.parser);
                    }
                    self.parser.advance();
                    let token_type = match self.parser.previous {
                        Some(token) => token.token_type,
                        None => {
                            break;
                        },
                    };
                    let rule = ParseRule::of(token_type);
                    let ghost operand = self@;
                    if let Some(f) = rule.infix {
                        self.production(f);
                        proof {
                            lemma_production(operand, f);
                        }
                    }
                }
            },
            None => self.parser.error("Expected expression"),
        }
    }

    fn expression(&mut self)
        requires
            old(self).compiling(),
            old(self)@.wf(),
        ensures
            final(self).compiling(),
            final(self)@ == old(self)@.expression(),
            final(self)@.wf(),
        decreases old(self)@.measure(), 1int,
    {
        self.parse_precedence(Precedence::Assignment);
    }

    fn current_chunk(&mut self) -> (chunk: &mut Chunk)
        requires
            old(self).compiling(),
        ensures
            *chunk == old(self).compiling_chunk->0,
            final(self).compiling_chunk == Some(*final(chunk)),
            final(self).parser == old(self).parser,
    {
        self.compiling_chunk.as_mut().unwrap()
    }
}

/// What a number literal becomes once its text has been read: the constant
/// with the value that was read, or the message of the error where none was.
pub fn literal_constant(parsed: Option<u64>) -> (r: Result<Value, &'static str>)
    ensures
        match parsed {
            Some(bits) => r == Ok::<Value, &'static str>(Value::Number(bits)),
            None => r is Err && r->Err_0@ == "Invalid number"@,
        },
{
    match parsed {
        Some(bits) => Ok(Value::Number(bits)),
        None => Err("Invalid number"),
    }
}

/// Reads the text of a number literal, as [`number_value`] has it.
pub fn read_number(span: &str) -> (parsed: Option<u64>)
    ensures
        parsed == number_value(span.spec_bytes()),
{
    let bytes = span.as_bytes();
    if bytes.len() <= READABLE_LEN {
        proof {
            encode_utf8_decode_utf8(span@);
        }
        read_bits(span)
    } else {
        None
    }
}


impl CompilerView {
    /// The height of the stack after all the code emitted so far, run on an
    /// empty stack, where that code can run (see [`height`]).
    pub open spec fn stacked(self) -> Option<int> {
        height(self.chunk.code, self.chunk.code.len() as int, self.chunk.constants.len() as int)
    }
}

/// A binary operator appends its instructions to the code and changes
/// nothing else but the lines.
pub proof fn lemma_emit_operator(c: CompilerView, operator: TokenType)
    ensures
        c.emit_operator(operator).chunk.code == c.chunk.code + operator_code(operator),
        c.emit_operator(operator).chunk.constants == c.chunk.constants,
        c.emit_operator(operator).parser == c.parser,
{
    assert(c.emit_operator(operator).chunk.code =~= c.chunk.code + operator_code(operator));
}

/// The height after `n` instructions depends on those instructions only.
proof fn lemma_height_prefix(a: Seq<OpCode>, b: Seq<OpCode>, n: int, constants: int)
    requires
        0 <= n <= a.len(),
        n <= b.len(),
        forall|i: int| 0 <= i < n ==> a[i] == b[i],
    ensures
        height(a, n, constants) == height(b, n, constants),
    decreases n,
{
    if n > 0 {
        lemma_height_prefix(a, b, n - 1, constants);
    }
}

/// Code that can run with a pool of constants can run with a larger one.
proof fn lemma_height_more_constants(code: Seq<OpCode>, n: int, fewer: int, more: int)
    requires
        0 <= n <= code.len(),
        fewer <= more,
        height(code, n, fewer) is Some,
    ensures
        height(code, n, more) == height(code, n, fewer),
    decreases n,
{
    if n > 0 {
        lemma_height_more_constants(code, n - 1, fewer, more);
    }
}

/// What one more instruction does to the height.
proof fn lemma_emit_height(c: CompilerView, op: OpCode)
    requires
        c.chunk.wf(),
    ensures
        c.emit(op).chunk.wf(),
        c.emit(op).parser == c.parser,
        c.emit(op).stacked() == match c.stacked() {
            Some(h) => height_after(op, h, c.chunk.constants.len() as int),
            None => None,
        },
{
    let code = c.chunk.code;
    lemma_height_prefix(code, code.push(op), code.len() as int, c.chunk.constants.len() as int);
}

/// A constant in a pool that has room is one more value on the stack.
proof fn lemma_emit_constant_height(c: CompilerView, value: Value)
    requires
        c.chunk.wf(),
        c.parser.coherent(),
        c.stacked() is Some,
        !c.emit_constant(value).parser.had_error,
    ensures
        c.emit_constant(value).chunk.wf(),
        c.emit_constant(value).parser == c.parser,
        c.emit_constant(value).stacked() == Some(c.stacked()->0 + 1),
{
    if c.chunk.constants.len() < MAX_CONSTANTS {
        let grown = CompilerView { chunk: c.chunk.add_constant(value), ..c };
        lemma_height_more_constants(
            c.chunk.code,
            c.chunk.code.len() as int,
            c.chunk.constants.len() as int,
            c.chunk.constants.len() as int + 1,
        );
        lemma_emit_height(grown, OpCode::Constant(c.chunk.constants.len() as u8));
    }
}

/// Without an error, an expression is code that puts one more value on the
/// stack.
proof fn lemma_parse_precedence_height(c: CompilerView, precedence: Precedence)
    requires
        c.wf(),
        c.chunk.wf(),
        c.stacked() is Some,
        c.stacked()->0 >= 0,
        !c.parse_precedence(precedence).parser.had_error,
    ensures
        c.parse_precedence(precedence).chunk.wf(),
        c.parse_precedence(precedence).stacked() == Some(c.stacked()->0 + 1),
    decreases c.measure(), 0int,
{
    lemma_advance_measure(c.parser);
    let start = CompilerView { parser: c.parser.advance(), ..c };
    match start.parser.previous {
        Some(token) => match rule(token.token_type).prefix {
            Some(f) => {
                let operand = start.production(f);
                lemma_production(start, f);
                lemma_infix_loop(operand, precedence);
                lemma_prefix_height(start, f);
                lemma_infix_loop_height(operand, precedence);
            },
            None => {},
        },
        None => {},
    }
}

/// Without an error, a prefix production is code that puts one more value on
/// the stack.
proof fn lemma_prefix_height(c: CompilerView, f: ParseFn)
    requires
        c.wf(),
        c.chunk.wf(),
        c.stacked() is Some,
        c.stacked()->0 >= 0,
        c.parser.previous is Some,
        rule(c.parser.previous->0.token_type).prefix == Some(f),
        !c.production(f).parser.had_error,
    ensures
        c.production(f).chunk.wf(),
        c.production(f).stacked() == Some(c.stacked()->0 + 1),
    decreases c.measure(), 3int,
{
    let token = c.parser.previous->0;
    match f {
        ParseFn::Grouping => {
            let inner = c.expression();
            lemma_parse_precedence(c, Precedence::Assignment);
            if inner.parser.current is Some && inner.parser.current->0.token_type
                == TokenType::RightParen {
                lemma_advance_measure(inner.parser);
            }
            lemma_parse_precedence_height(c, Precedence::Assignment);
        },
        ParseFn::Unary => {
            let operand = c.parse_precedence(Precedence::Unary);
            lemma_parse_precedence_height(c, Precedence::Unary);
            lemma_emit_height(operand, OpCode::Not);
            lemma_emit_height(operand, OpCode::Negate);
        },
        ParseFn::Binary => {},
        ParseFn::Number => {
            let parsed = number_value(token.span);
            if let Some(bits) = parsed {
                lemma_emit_constant_height(c, Value::Number(bits));
            }
        },
        ParseFn::Literal => {
            lemma_emit_height(c, OpCode::False);
            lemma_emit_height(c, OpCode::True);
            lemma_emit_height(c, OpCode::Nil);
        },
    }
}

/// Without an error, the right operand of a binary operator and the
/// operator's instructions leave as many values on the stack as they found,
/// the left operand among them.
proof fn lemma_binary_height(c: CompilerView)
    requires
        c.wf(),
        c.chunk.wf(),
        c.stacked() is Some,
        c.stacked()->0 >= 1,
        c.parser.previous is Some,
        rule(c.parser.previous->0.token_type).infix == Some(ParseFn::Binary),
        !c.binary().parser.had_error,
    ensures
        c.binary().chunk.wf(),
        c.binary().stacked() == c.stacked(),
    decreases c.measure(), 1int,
{
    let token = c.parser.previous->0;
    let level = rule(token.token_type).precedence.next();
    let operand = c.parse_precedence(level);
    lemma_parse_precedence_height(c, level);
    lemma_emit_height(operand, OpCode::Add);
    lemma_emit_height(operand, OpCode::Sub);
    lemma_emit_height(operand, OpCode::Mul);
    lemma_emit_height(operand, OpCode::Div);
    lemma_emit_height(operand, OpCode::Equal);
    lemma_emit_height(operand, OpCode::Greater);
    lemma_emit_height(operand, OpCode::Less);
    lemma_emit_height(operand.emit(OpCode::Equal), OpCode::Not);
    lemma_emit_height(operand.emit(OpCode::Greater), OpCode::Not);
    lemma_emit_height(operand.emit(OpCode::Less), OpCode::Not);
}

/// Without an error, the infix operators that follow an operand leave as
/// many values on the stack as they found.
proof fn lemma_infix_loop_height(c: CompilerView, precedence: Precedence)
    requires
        c.wf(),
        c.chunk.wf(),
        c.stacked() is Some,
        c.stacked()->0 >= 1,
        !c.infix_loop(precedence).parser.had_error,
    ensures
        c.infix_loop(precedence).chunk.wf(),
        c.infix_loop(precedence).stacked() == c.stacked(),
    decreases c.measure(), 4int,
{
    let binding = match c.parser.current {
        Some(token) => rule(token.token_type).precedence,
        None => Precedence::Lowest,
    };
    if precedence.level() <= binding.level() {
        lemma_advance_measure(c.parser);
        let start = CompilerView { parser: c.parser.advance(), ..c };
        if let Some(token) = start.parser.previous {
            match rule(token.token_type).infix {
                Some(f) => {
                    let operand = start.production(f);
                    lemma_production(start, f);
                    lemma_infix_loop(operand, precedence);
                    lemma_binary_height(start);
                    lemma_infix_loop_height(operand, precedence);
                },
                None => {
                    lemma_infix_loop_height(start, precedence);
                },
            }
        }
    }
}

/// Whatever the state of a compiler whose scanner is well formed, compiling
/// either finds an error or yields the code of one expression: each
/// instruction has its line, each `Constant` names a constant of the pool,
/// and the code puts exactly one value on the stack, which the final `Return`
/// pops.
pub proof fn lemma_compile_is_expression(c: CompilerView)
    requires
        c.wf(),
    ensures
        c.compile().wf(),
        !c.compile().parser.had_error ==> c.compile().chunk.wf()
            && c.compile().chunk.operands_valid() && c.compile().chunk.is_expression(),
{
    let fresh = CompilerView {
        chunk: ChunkView::empty(),
        ..c
    };
    let parsed = fresh.expression();
    lemma_parse_precedence(fresh, Precedence::Assignment);
    let checked = if parsed.parser.current is Some {
        CompilerView {
            parser: parsed.parser.error_at_current("Expected end of expression"@),
            ..parsed
        }
    } else {
        parsed
    };
    let end = checked.emit(OpCode::Return);
    if !end.parser.had_error {
        lemma_parse_precedence_height(fresh, Precedence::Assignment);
        let code = parsed.chunk.code;
        let constants = parsed.chunk.constants.len() as int;
        lemma_height_prefix(code, end.chunk.code, code.len() as int, constants);
        assert(end.chunk.code.last() == OpCode::Return);
        lemma_height_operands(end.chunk.code, code.len() as int, constants);
    }
}

/// Every source either has an error, and then at least one diagnostic, or
/// compiles to the code of one expression (see
/// [`lemma_compile_is_expression`]).
pub proof fn lemma_compiled_is_expression(source: Seq<u8>)
    requires
        valid_utf8(source),
        source.len() < usize::MAX,
    ensures
        match compile_source(source) {
            Ok(chunk) => chunk.wf() && chunk.operands_valid() && chunk.is_expression(),
            Err(diagnostics) => diagnostics.len() > 0,
        },
{
    let begin = ParserView::start(source);
    crate::scanner::lemma_count_newlines_split(source, 0);
    lemma_advance_measure(begin);
    lemma_compile_is_expression(CompilerView::start(source));
}


/// A source that holds nothing but whitespace and comments, the empty source
/// among them, does not compile: its one error is "Expected expression", at
/// the end of the source, on the line that the scanner has reached there.
pub proof fn lemma_blank_source(source: Seq<u8>)
    requires
        blank_end(source, 0, false) == source.len(),
    ensures
        compile_source(source) == Err::<ChunkView, Seq<DiagnosticView>>(
            seq![
                DiagnosticView {
                    line: 1 + count_newlines(source),
                    location: None,
                    message: "Expected expression"@,
                },
            ],
        ),
{
    let begin = ParserView::start(source);
    let taken = ParserView { previous: begin.current, current: None, ..begin };
    assert(source.take(source.len() as int) =~= source);
    assert(source.skip(source.len() as int) =~= Seq::<u8>::empty());
    let empty = Seq::<u8>::empty();
    let line = 1 + count_newlines(source);
    let end = ScannerView { rest: empty, line };
    assert(scan(begin.scanner) == (Scan::End, end));
    assert(empty.take(0) =~= empty);
    assert(empty.skip(0) =~= empty);
    assert(scan(end) == (Scan::End, end));
    let first = begin.advance();
    assert(first == taken.fetch());
    assert(first == ParserView { scanner: end, ..begin });
    let start = CompilerView::start(source);
    let again = (ParserView { previous: first.current, current: None, ..first }).fetch();
    assert(first.advance() == again);
    assert(again == first);
    let parsed = start.expression();
    assert(parsed == start.error("Expected expression"@));
    assert(Seq::<DiagnosticView>::empty().push(
        DiagnosticView { line, location: None, message: "Expected expression"@ },
    ) =~= seq![DiagnosticView { line, location: None, message: "Expected expression"@ }]);
}

} // verus!
