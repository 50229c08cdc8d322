//! Arithmetic on number literals.
//!
//! A source that is a row of number literals with `+`, `-`, `*` and `/`
//! between them has a value by the usual rules: `*` and `/` bind tighter than
//! `+` and `-`, and operators of equal strength group from the left. This
//! file defines that value without reference to the compiler and proves that
//! compiling and running such a source computes it.

use vstd::prelude::*;
use vstd::utf8::*;
use crate::chunk::{ChunkView, OpCode, MAX_CONSTANTS};
use crate::compiler::{
    compile_source, lemma_advance_measure, lemma_emit_operator, lemma_infix_loop,
    lemma_production, number_value, rule, CompilerView, DiagnosticView, ParseFn, ParserView,
    Precedence,
};
use crate::number::{difference_bits, product_bits, quotient_bits, sum_bits};
use crate::scanner::{lemma_count_newlines_split, scan, Scan, ScannerView, TokenType, TokenView};
use crate::value::Value;
use crate::vm::{
    execute, lemma_execute_run_all, lemma_run_all_append, lemma_run_all_more_constants, run_all,
    Outcome, Step,
};

verus! {

pub open spec fn is_additive(operator: TokenType) -> bool {
    operator == TokenType::Plus || operator == TokenType::Minus
}

pub open spec fn is_multiplicative(operator: TokenType) -> bool {
    operator == TokenType::Star || operator == TokenType::Slash
}

/// The result of one operator on two numbers.
pub open spec fn apply(operator: TokenType, a: u64, b: u64) -> u64 {
    match operator {
        TokenType::Plus => sum_bits(a, b),
        TokenType::Minus => difference_bits(a, b),
        TokenType::Star => product_bits(a, b),
        _ => quotient_bits(a, b),
    }
}

/// A row of numbers with an operator between each two neighbours:
/// `operands[0] operators[0] operands[1] ... operands[n]`.
pub struct Arithmetic {
    pub operands: Seq<u64>,
    pub operators: Seq<TokenType>,
}

impl Arithmetic {
    pub open spec fn wf(self) -> bool {
        &&& self.operands.len() == self.operators.len() + 1
        &&& forall|i: int|
            0 <= i < self.operators.len() ==> is_additive(#[trigger] self.operators[i])
                || is_multiplicative(self.operators[i])
    }

    /// The value of `operands[lo] ... operands[hi]`, taken from the left
    /// whatever the operators between them are.
    pub open spec fn chain(self, lo: int, hi: int) -> u64
        decreases hi - lo,
    {
        if hi <= lo {
            self.operands[lo]
        } else {
            apply(self.operators[hi - 1], self.chain(lo, hi - 1), self.operands[hi])
        }
    }

    /// The index of the first operand of the term that holds operand `hi`: a
    /// term reaches back to the nearest `+` or `-`.
    pub open spec fn term_start(self, hi: int) -> int
        decreases hi,
    {
        if hi <= 0 {
            0
        } else if is_additive(self.operators[hi - 1]) {
            hi
        } else {
            self.term_start(hi - 1)
        }
    }

    /// The value of the row up to operand `hi`: the value of the term that
    /// holds `hi`, added to or subtracted from the value of what stands
    /// before that term.
    pub open spec fn value_to(self, hi: int) -> u64
        decreases hi,
    {
        let lo = self.term_start(hi);
        if 0 < lo <= hi {
            apply(self.operators[lo - 1], self.value_to(lo - 1), self.chain(lo, hi))
        } else {
            self.chain(0, hi)
        }
    }

    /// The value of the whole row.
    pub open spec fn value(self) -> u64 {
        self.value_to(self.operators.len() as int)
    }

    /// The index of the first `+` or `-` at or after operator `i`, or the
    /// number of operators where there is none.
    pub open spec fn term_end(self, i: int) -> int
        decreases self.operators.len() - i,
    {
        if i >= self.operators.len() {
            self.operators.len() as int
        } else if i >= 0 && is_additive(self.operators[i]) {
            i
        } else {
            self.term_end(i + 1)
        }
    }
}

/// The token of operand `i` in a row of tokens.
pub open spec fn operand_token(tokens: Seq<TokenView>, i: int) -> TokenView {
    tokens[2 * i]
}

/// The token of operator `i` in a row of tokens.
pub open spec fn operator_token(tokens: Seq<TokenView>, i: int) -> TokenView {
    tokens[2 * i + 1]
}

/// True when the tokens are the number literals and the operators of `e`, in
/// turn.
pub open spec fn spells(tokens: Seq<TokenView>, e: Arithmetic) -> bool {
    &&& tokens.len() == 2 * e.operators.len() + 1
    &&& forall|i: int|
        0 <= i < e.operands.len() ==> (#[trigger] operand_token(tokens, i)).token_type
            == TokenType::Number && number_value(operand_token(tokens, i).span) == Some(
            e.operands[i],
        )
    &&& forall|i: int|
        0 <= i < e.operators.len() ==> (#[trigger] operator_token(tokens, i)).token_type
            == e.operators[i]
}

/// True when the scanner yields the tokens from the `i`-th on, one per call
/// and without an error, and then the end of the source.
pub open spec fn scans_to(scanner: ScannerView, tokens: Seq<TokenView>, i: int) -> bool
    decreases tokens.len() - i,
{
    if i >= tokens.len() {
        scan(scanner).0 is End
    } else {
        scan(scanner).0 == Scan::Token(tokens[i]) && scans_to(scan(scanner).1, tokens, i + 1)
    }
}

/// True when the compiler has found no error, token `i` is the current one
/// and the scanner yields the tokens behind it.
pub open spec fn at(c: CompilerView, tokens: Seq<TokenView>, i: int) -> bool {
    &&& c.wf()
    &&& !c.parser.had_error
    &&& if i < tokens.len() {
        c.parser.current == Some(tokens[i]) && scans_to(c.parser.scanner, tokens, i + 1)
    } else {
        c.parser.current is None
    }
}

/// Advancing over token `i` makes it the previous token and token `i + 1`
/// the current one.
pub proof fn lemma_step(c: CompilerView, tokens: Seq<TokenView>, i: int)
    requires
        at(c, tokens, i),
        0 <= i < tokens.len(),
    ensures
        c.parser.advance().previous == Some(tokens[i]),
        at(CompilerView { parser: c.parser.advance(), ..c }, tokens, i + 1),
        c.parser.advance().measure() < c.parser.measure(),
{
    lemma_advance_measure(c.parser);
    let taken = ParserView { previous: c.parser.current, current: None, ..c.parser };
    assert(c.parser.advance() == taken.fetch());
}

/// The error of the literal that finds the pool of constants full: the
/// literal after the first 256.
pub open spec fn pool_full(tokens: Seq<TokenView>) -> DiagnosticView {
    DiagnosticView {
        line: operand_token(tokens, MAX_CONSTANTS as int).line,
        location: Some(operand_token(tokens, MAX_CONSTANTS as int).span),
        message: "Too many constants in one chunk"@,
    }
}

/// True when the one error that the compiler has found is that of the full
/// pool.
pub open spec fn failed(c: CompilerView, tokens: Seq<TokenView>) -> bool {
    &&& c.wf()
    &&& c.parser.had_error
    &&& c.parser.diagnostics == seq![pool_full(tokens)]
}

/// A number literal in operand position. Among the first 256 its value
/// becomes the next constant, and the code so far then leaves it on top of
/// the stack; the literal after them is the error of the full pool.
proof fn lemma_operand(
    c: CompilerView,
    tokens: Seq<TokenView>,
    e: Arithmetic,
    i: int,
    precedence: Precedence,
    stack: Seq<Value>,
    left: Seq<Value>,
)
    requires
        e.wf(),
        spells(tokens, e),
        0 <= i < e.operands.len(),
        i <= MAX_CONSTANTS,
        at(c, tokens, 2 * i),
        c.chunk.constants.len() == i,
        run_all(c.chunk.code, c.chunk.constants, stack) == Step::Next(left),
    ensures
        ({
            let start = CompilerView { parser: c.parser.advance(), ..c };
            let operand = start.production(ParseFn::Number);
            &&& c.parse_precedence(precedence) == operand.infix_loop(precedence)
            &&& operand.measure() < c.measure()
            &&& operand.wf()
            &&& i < MAX_CONSTANTS ==> {
                &&& at(operand, tokens, 2 * i + 1)
                &&& operand.chunk.constants.len() == i + 1
                &&& run_all(operand.chunk.code, operand.chunk.constants, stack) == Step::Next(
                    left.push(Value::Number(e.operands[i])),
                )
            }
            &&& i == MAX_CONSTANTS ==> failed(operand, tokens)
        }),
{
    lemma_step(c, tokens, 2 * i);
    let start = CompilerView { parser: c.parser.advance(), ..c };
    let token = operand_token(tokens, i);
    assert(start.parser.previous == Some(token));
    assert(rule(token.token_type).prefix == Some(ParseFn::Number));
    let operand = start.production(ParseFn::Number);
    let value = Value::Number(e.operands[i]);
    assert(operand == start.emit_constant(value));
    if i < MAX_CONSTANTS {
        let constants = c.chunk.constants.push(value);
        let op = OpCode::Constant(i as u8);
        assert(operand.chunk.code == c.chunk.code.push(op));
        assert(operand.chunk.constants == constants);
        lemma_run_all_more_constants(c.chunk.code, c.chunk.constants, value, stack);
        lemma_run_all_append(c.chunk.code, seq![op], constants, stack);
        assert(c.chunk.code.push(op) =~= c.chunk.code + seq![op]);
        assert(seq![op].skip(1) =~= Seq::<OpCode>::empty());
        reveal_with_fuel(run_all, 2);
    } else {
        assert(start.parser.diagnostics =~= Seq::<DiagnosticView>::empty());
        assert(operand.parser.diagnostics =~= seq![pool_full(tokens)]);
    }
}

/// The right operand of operator `i` where it is a single number, and the
/// operator's instruction: the code then leaves the operator's result in
/// place of its left operand, unless the number finds the pool full.
proof fn lemma_binary_number(
    c: CompilerView,
    tokens: Seq<TokenView>,
    e: Arithmetic,
    i: int,
    stack: Seq<Value>,
    below: Seq<Value>,
    a: u64,
)
    requires
        e.wf(),
        spells(tokens, e),
        0 <= i < e.operators.len(),
        i < MAX_CONSTANTS,
        is_multiplicative(e.operators[i]),
        at(c, tokens, 2 * i + 2),
        c.parser.previous == Some(operator_token(tokens, i)),
        c.chunk.constants.len() == i + 1,
        run_all(c.chunk.code, c.chunk.constants, stack) == Step::Next(
            below.push(Value::Number(a)),
        ),
    ensures
        c.binary().measure() < c.measure(),
        i + 1 < MAX_CONSTANTS ==> {
            &&& at(c.binary(), tokens, 2 * i + 3)
            &&& c.binary().chunk.constants.len() == i + 2
            &&& run_all(c.binary().chunk.code, c.binary().chunk.constants, stack) == Step::Next(
                below.push(Value::Number(apply(e.operators[i], a, e.operands[i + 1]))),
            )
        },
        i + 1 == MAX_CONSTANTS ==> failed(c.binary(), tokens),
{
    let operator = e.operators[i];
    assert(operator_token(tokens, i).token_type == operator);
    let left = below.push(Value::Number(a));
    lemma_operand(c, tokens, e, i + 1, Precedence::Unary, stack, left);
    let start = CompilerView { parser: c.parser.advance(), ..c };
    let operand = start.production(ParseFn::Number);
    lemma_infix_loop(operand, Precedence::Unary);
    lemma_emit_operator(operand.infix_loop(Precedence::Unary), operator);
    if i + 1 < MAX_CONSTANTS {
        if 2 * i + 3 < tokens.len() {
            assert(operand.parser.current == Some(operator_token(tokens, i + 1)));
            assert(operator_token(tokens, i + 1).token_type == e.operators[i + 1]);
        }
        assert(operand.infix_loop(Precedence::Unary) == operand);
        lemma_operator_runs(operand, operator, stack, below, a, e.operands[i + 1]);
    }
}

/// An arithmetic operator after the code of its two operands: the code then
/// leaves the result in their place.
proof fn lemma_operator_runs(
    c: CompilerView,
    operator: TokenType,
    stack: Seq<Value>,
    below: Seq<Value>,
    a: u64,
    b: u64,
)
    requires
        is_additive(operator) || is_multiplicative(operator),
        run_all(c.chunk.code, c.chunk.constants, stack) == Step::Next(
            below.push(Value::Number(a)).push(Value::Number(b)),
        ),
    ensures
        c.emit_operator(operator).parser == c.parser,
        c.emit_operator(operator).chunk.constants == c.chunk.constants,
        run_all(
            c.emit_operator(operator).chunk.code,
            c.emit_operator(operator).chunk.constants,
            stack,
        ) == Step::Next(below.push(Value::Number(apply(operator, a, b)))),
{
    lemma_emit_operator(c, operator);
    let code = crate::compiler::operator_code(operator);
    lemma_run_all_append(c.chunk.code, code, c.chunk.constants, stack);
    let both = below.push(Value::Number(a)).push(Value::Number(b));
    assert(both.take(both.len() - 2) =~= below);
    assert(code.skip(1) =~= Seq::<OpCode>::empty());
    reveal_with_fuel(run_all, 2);
}

/// The operators `*` and `/` that follow a number, taken at the level of a
/// factor: the loop takes them up to the next `+` or `-`, and the code then
/// leaves the value of the chain in place of the number, unless a number of
/// the chain finds the pool full.
proof fn lemma_factor_loop(
    c: CompilerView,
    tokens: Seq<TokenView>,
    e: Arithmetic,
    lo: int,
    i: int,
    stack: Seq<Value>,
    below: Seq<Value>,
)
    requires
        e.wf(),
        spells(tokens, e),
        0 <= lo <= i <= e.operators.len(),
        i < MAX_CONSTANTS,
        at(c, tokens, 2 * i + 1),
        c.chunk.constants.len() == i + 1,
        run_all(c.chunk.code, c.chunk.constants, stack) == Step::Next(
            below.push(Value::Number(e.chain(lo, i))),
        ),
    ensures
        ({
            let end = c.infix_loop(Precedence::Factor);
            let j = e.term_end(i);
            &&& i <= j <= e.operators.len()
            &&& end.measure() <= c.measure()
            &&& j < MAX_CONSTANTS ==> {
                &&& at(end, tokens, 2 * j + 1)
                &&& end.chunk.constants.len() == j + 1
                &&& run_all(end.chunk.code, end.chunk.constants, stack) == Step::Next(
                    below.push(Value::Number(e.chain(lo, j))),
                )
            }
            &&& j >= MAX_CONSTANTS ==> failed(end, tokens)
        }),
    decreases e.operators.len() - i,
{
    lemma_term_end_additive(e, i);
    if i < e.operators.len() {
        let operator = e.operators[i];
        assert(c.parser.current == Some(operator_token(tokens, i)));
        assert(operator_token(tokens, i).token_type == operator);
        if is_multiplicative(operator) {
            lemma_step(c, tokens, 2 * i + 1);
            let start = CompilerView { parser: c.parser.advance(), ..c };
            lemma_binary_number(start, tokens, e, i, stack, below, e.chain(lo, i));
            let operand = start.production(ParseFn::Binary);
            lemma_production(start, ParseFn::Binary);
            lemma_term_end_additive(e, i + 1);
            assert(c.infix_loop(Precedence::Factor) == operand.infix_loop(Precedence::Factor));
            if i + 1 < MAX_CONSTANTS {
                lemma_factor_loop(operand, tokens, e, lo, i + 1, stack, below);
            } else {
                lemma_infix_loop(operand, Precedence::Factor);
            }
        }
    }
}

/// The start of the term that ends at operator `j` is `lo` where only `*`
/// and `/` stand between.
proof fn lemma_term_start(e: Arithmetic, lo: int, i: int)
    requires
        e.wf(),
        0 <= lo <= i <= e.operators.len(),
        lo == 0 || is_additive(e.operators[lo - 1]),
        e.term_end(lo) >= i,
    ensures
        e.term_start(i) == lo,
    decreases i - lo,
{
    if i > lo {
        lemma_term_end(e, lo, i - 1);
        lemma_term_start(e, lo, i - 1);
    }
}

/// A term ends at a `+` or `-`, or where the row ends.
proof fn lemma_term_end_additive(e: Arithmetic, i: int)
    requires
        0 <= i <= e.operators.len(),
    ensures
        i <= e.term_end(i) <= e.operators.len(),
        e.term_end(i) < e.operators.len() ==> is_additive(e.operators[e.term_end(i)]),
    decreases e.operators.len() - i,
{
    if i < e.operators.len() && !is_additive(e.operators[i]) {
        lemma_term_end_additive(e, i + 1);
    }
}

/// No `+` or `-` stands before the end of a term.
proof fn lemma_term_end(e: Arithmetic, lo: int, i: int)
    requires
        e.wf(),
        0 <= lo <= i < e.operators.len(),
        e.term_end(lo) > i,
    ensures
        !is_additive(e.operators[i]),
        e.term_end(lo) == e.term_end(i + 1),
    decreases i - lo,
{
    if lo < i {
        lemma_term_end(e, lo + 1, i);
    }
}

/// The right operand of a `+` or `-`, which is a whole term, and the
/// operator's instruction: the code then leaves the operator's result in
/// place of its left operand, unless a number of the term finds the pool
/// full.
proof fn lemma_binary_term(
    c: CompilerView,
    tokens: Seq<TokenView>,
    e: Arithmetic,
    i: int,
    stack: Seq<Value>,
    below: Seq<Value>,
    a: u64,
)
    requires
        e.wf(),
        spells(tokens, e),
        0 <= i < e.operators.len(),
        i < MAX_CONSTANTS,
        is_additive(e.operators[i]),
        at(c, tokens, 2 * i + 2),
        c.parser.previous == Some(operator_token(tokens, i)),
        c.chunk.constants.len() == i + 1,
        run_all(c.chunk.code, c.chunk.constants, stack) == Step::Next(
            below.push(Value::Number(a)),
        ),
    ensures
        ({
            let j = e.term_end(i + 1);
            &&& i < j <= e.operators.len()
            &&& j < MAX_CONSTANTS ==> {
                &&& at(c.binary(), tokens, 2 * j + 1)
                &&& c.binary().chunk.constants.len() == j + 1
                &&& run_all(c.binary().chunk.code, c.binary().chunk.constants, stack)
                    == Step::Next(
                    below.push(Value::Number(apply(e.operators[i], a, e.chain(i + 1, j)))),
                )
            }
            &&& j >= MAX_CONSTANTS ==> failed(c.binary(), tokens)
        }),
{
    let operator = e.operators[i];
    assert(operator_token(tokens, i).token_type == operator);
    let left = below.push(Value::Number(a));
    lemma_term_end_additive(e, i + 1);
    lemma_operand(c, tokens, e, i + 1, Precedence::Factor, stack, left);
    let first = CompilerView { parser: c.parser.advance(), ..c };
    let number = first.production(ParseFn::Number);
    let j = e.term_end(i + 1);
    let term = number.infix_loop(Precedence::Factor);
    assert(rule(operator).precedence.next() == Precedence::Factor);
    assert(c.parse_precedence(Precedence::Factor) == term);
    assert(c.binary() == term.emit_operator(operator));
    lemma_emit_operator(term, operator);
    if i + 1 < MAX_CONSTANTS {
        lemma_factor_loop(number, tokens, e, i + 1, i + 1, stack, left);
        if j < MAX_CONSTANTS {
            lemma_operator_runs(term, operator, stack, below, a, e.chain(i + 1, j));
        }
    } else {
        lemma_infix_loop(number, Precedence::Factor);
    }
}

/// The operators that follow a complete term, taken at the top level: the
/// loop takes them all, and the code then leaves the value of the whole
/// row, unless the row has more than 256 numbers: then the compiler has
/// found the error of the full pool and no other.
proof fn lemma_sum_loop(
    c: CompilerView,
    tokens: Seq<TokenView>,
    e: Arithmetic,
    i: int,
    stack: Seq<Value>,
)
    requires
        e.wf(),
        spells(tokens, e),
        0 <= i <= e.operators.len(),
        i < MAX_CONSTANTS,
        i == e.operators.len() || is_additive(e.operators[i]) || e.term_start(i) == 0,
        at(c, tokens, 2 * i + 1),
        c.chunk.constants.len() == i + 1,
        run_all(c.chunk.code, c.chunk.constants, stack) == Step::Next(
            stack.push(Value::Number(e.value_to(i))),
        ),
    ensures
        e.operands.len() <= MAX_CONSTANTS ==> {
            &&& at(c.infix_loop(Precedence::Assignment), tokens, tokens.len() as int)
            &&& run_all(
                c.infix_loop(Precedence::Assignment).chunk.code,
                c.infix_loop(Precedence::Assignment).chunk.constants,
                stack,
            ) == Step::Next(stack.push(Value::Number(e.value())))
        },
        e.operands.len() > MAX_CONSTANTS ==> failed(
            c.infix_loop(Precedence::Assignment),
            tokens,
        ),
    decreases e.operators.len() - i,
{
    if i < e.operators.len() {
        let operator = e.operators[i];
        assert(c.parser.current == Some(operator_token(tokens, i)));
        assert(operator_token(tokens, i).token_type == operator);
        lemma_step(c, tokens, 2 * i + 1);
        let start = CompilerView { parser: c.parser.advance(), ..c };
        let operand = start.production(ParseFn::Binary);
        assert(operand == start.binary());
        lemma_production(start, ParseFn::Binary);
        let j = if is_multiplicative(operator) {
            i + 1
        } else {
            e.term_end(i + 1)
        };
        if is_multiplicative(operator) {
            lemma_binary_number(start, tokens, e, i, stack, stack, e.value_to(i));
        } else {
            lemma_binary_term(start, tokens, e, i, stack, stack, e.value_to(i));
            lemma_term_start(e, i + 1, j);
            lemma_term_end_additive(e, i + 1);
        }
        assert(c.infix_loop(Precedence::Assignment) == operand.infix_loop(Precedence::Assignment));
        if j < MAX_CONSTANTS {
            assert(at(operand, tokens, 2 * j + 1));
            assert(run_all(operand.chunk.code, operand.chunk.constants, stack) == Step::Next(
                stack.push(Value::Number(e.value_to(j))),
            ));
            lemma_sum_loop(operand, tokens, e, j, stack);
        } else {
            lemma_infix_loop(operand, Precedence::Assignment);
        }
    }
}

/// A source that scans, without an error, to the number literals and the
/// operators of a row `e` of no more than 256 numbers compiles, and running
/// the chunk yields the value of `e` by the usual rules: see
/// [`Arithmetic::value`].
pub proof fn lemma_arithmetic(
    source: Seq<u8>,
    tokens: Seq<TokenView>,
    e: Arithmetic,
    stack: Seq<Value>,
)
    requires
        valid_utf8(source),
        source.len() < usize::MAX,
        e.wf(),
        e.operands.len() <= MAX_CONSTANTS,
        spells(tokens, e),
        scans_to(ScannerView { rest: source, line: 1 }, tokens, 0),
    ensures
        compile_source(source) is Ok,
        execute(compile_source(source)->Ok_0, 0, stack) == (Outcome::Value {
            value: Value::Number(e.value()),
            ip: compile_source(source)->Ok_0.code.len() as int,
            stack,
        }),
{
    let begin = ParserView::start(source);
    lemma_count_newlines_split(source, 0);
    lemma_advance_measure(begin);
    let start = CompilerView::start(source);
    assert(start.parser == begin.fetch());
    assert(at(start, tokens, 0));
    lemma_operand(start, tokens, e, 0, Precedence::Assignment, stack, stack);
    let first = CompilerView { parser: start.parser.advance(), ..start };
    let number = first.production(ParseFn::Number);
    lemma_sum_loop(number, tokens, e, 0, stack);
    let parsed = start.expression();
    assert(parsed == number.infix_loop(Precedence::Assignment));
    let end = start.compile();
    assert(end == parsed.emit(OpCode::Return));
    let chunk = end.chunk;
    assert(chunk.code.subrange(0, chunk.code.len() - 1) =~= parsed.chunk.code);
    lemma_execute_run_all(chunk, 0, stack);
    assert(stack.push(Value::Number(e.value())).drop_last() =~= stack);
}


/// A source that scans, without an error, to the number literals and the
/// operators of a row of more than 256 numbers does not compile: the literal
/// after the first 256 finds the pool of constants full, and that is the one
/// error. No operand is wrapped or cut short.
pub proof fn lemma_too_many_literals(source: Seq<u8>, tokens: Seq<TokenView>, e: Arithmetic)
    requires
        valid_utf8(source),
        source.len() < usize::MAX,
        e.wf(),
        e.operands.len() > MAX_CONSTANTS,
        spells(tokens, e),
        scans_to(ScannerView { rest: source, line: 1 }, tokens, 0),
    ensures
        compile_source(source) == Err::<ChunkView, Seq<DiagnosticView>>(seq![pool_full(tokens)]),
{
    let begin = ParserView::start(source);
    lemma_count_newlines_split(source, 0);
    lemma_advance_measure(begin);
    let start = CompilerView::start(source);
    assert(start.parser == begin.fetch());
    assert(at(start, tokens, 0));
    let stack = Seq::<Value>::empty();
    lemma_operand(start, tokens, e, 0, Precedence::Assignment, stack, stack);
    let first = CompilerView { parser: start.parser.advance(), ..start };
    let number = first.production(ParseFn::Number);
    lemma_sum_loop(number, tokens, e, 0, stack);
    let parsed = start.expression();
    assert(parsed == number.infix_loop(Precedence::Assignment));
}

} // verus!
