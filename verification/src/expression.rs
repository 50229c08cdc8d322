//! Expressions as trees, and what the compiler makes of them.
//!
//! A tree says how an expression is built from literals, parentheses and
//! operators. This file states which tokens spell a tree and which code the
//! tree stands for, and proves that the compiler, reading those tokens,
//! emits that code, and that running the code yields the value of the tree.
//! It follows that `a != b` compiles to the code of `!(a == b)`, whatever the
//! operands are.

use vstd::prelude::*;
use vstd::std_specs::ops::{AddSpec, DivSpec, MulSpec, NegSpec, NotSpec, SubSpec};
use vstd::utf8::*;
use crate::arithmetic::{at, lemma_step, scans_to};
use crate::chunk::{ChunkView, OpCode, MAX_CONSTANTS};
use crate::compiler::{
    compile_source, lemma_advance_measure, lemma_emit_operator, lemma_infix_loop_unfolds,
    lemma_parse_precedence_unfolds, lemma_production, number_value, operator_code, rule,
    CompilerView, ParseFn, ParserView, Precedence,
};
use crate::scanner::{lemma_count_newlines_split, ScannerView, TokenType, TokenView};
use crate::value::Value;
use crate::number::number_lt;
use crate::vm::{
    execute, lemma_execute_run_all, lemma_run_all_append, run_all, step, Outcome, Step,
};

verus! {

/// An expression as a tree.
pub enum Expr {
    /// A number literal with its value.
    Number(u64),
    /// `nil`, `true` or `false`, by the kind of its token.
    Literal(TokenType),
    /// An expression in parentheses.
    Group(Box<Expr>),
    /// `!` or `-` before an operand.
    Unary(TokenType, Box<Expr>),
    /// An infix operator between two operands.
    Binary(TokenType, Box<Expr>, Box<Expr>),
}

impl Expr {
    /// The number of tokens that spell the tree.
    pub open spec fn width(self) -> nat
        decreases self,
    {
        match self {
            Expr::Number(_) => 1,
            Expr::Literal(_) => 1,
            Expr::Group(inner) => inner.width() + 2,
            Expr::Unary(_, operand) => operand.width() + 1,
            Expr::Binary(_, left, right) => left.width() + 1 + right.width(),
        }
    }

    /// The number of number literals in the tree.
    pub open spec fn numbers(self) -> nat
        decreases self,
    {
        match self {
            Expr::Number(_) => 1,
            Expr::Literal(_) => 0,
            Expr::Group(inner) => inner.numbers(),
            Expr::Unary(_, operand) => operand.numbers(),
            Expr::Binary(_, left, right) => left.numbers() + right.numbers(),
        }
    }

    /// How tightly the tree holds together: as the level of its operator for
    /// an infix operator, as `Unary` for a prefix operator, and as `Primary`
    /// for a literal and for parentheses.
    pub open spec fn level(self) -> nat {
        match self {
            Expr::Unary(_, _) => Precedence::Unary.level(),
            Expr::Binary(operator, _, _) => rule(operator).precedence.level(),
            _ => Precedence::Primary.level(),
        }
    }

    /// True when the tree is one that the grammar allows without further
    /// parentheses: the operand of a prefix operator is no infix expression,
    /// the left operand of an infix operator holds together at least as
    /// tightly as the operator binds, and the right operand more tightly, so
    /// that operators of one level group from the left.
    pub open spec fn wf(self) -> bool
        decreases self,
    {
        match self {
            Expr::Number(_) => true,
            Expr::Literal(kind) => kind == TokenType::Nil || kind == TokenType::True || kind
                == TokenType::False,
            Expr::Group(inner) => inner.wf(),
            Expr::Unary(operator, operand) => (operator == TokenType::Bang || operator
                == TokenType::Minus) && operand.wf() && operand.level()
                >= Precedence::Unary.level(),
            Expr::Binary(operator, left, right) => rule(operator).infix == Some(ParseFn::Binary)
                && left.wf() && right.wf() && left.level() >= rule(operator).precedence.level()
                && right.level() > rule(operator).precedence.level(),
        }
    }

    /// True when the tokens from index `from` on spell the tree.
    pub open spec fn spelled(self, tokens: Seq<TokenView>, from: int) -> bool
        decreases self,
    {
        &&& 0 <= from
        &&& from + self.width() <= tokens.len()
        &&& match self {
            Expr::Number(value) => tokens[from].token_type == TokenType::Number && number_value(
                tokens[from].span,
            ) == Some(value),
            Expr::Literal(kind) => tokens[from].token_type == kind,
            Expr::Group(inner) => tokens[from].token_type == TokenType::LeftParen
                && inner.spelled(tokens, from + 1) && tokens[from + 1
                + inner.width()].token_type == TokenType::RightParen,
            Expr::Unary(operator, operand) => tokens[from].token_type == operator
                && operand.spelled(tokens, from + 1),
            Expr::Binary(operator, left, right) => left.spelled(tokens, from) && tokens[from
                + left.width()].token_type == operator && right.spelled(
                tokens,
                from + left.width() + 1,
            ),
        }
    }

    /// The code of the tree, where its first number literal becomes constant
    /// `first`: operands before their operator, the left one first.
    pub open spec fn code(self, first: nat) -> Seq<OpCode>
        decreases self,
    {
        match self {
            Expr::Number(_) => seq![OpCode::Constant(first as u8)],
            Expr::Literal(kind) => match kind {
                TokenType::False => seq![OpCode::False],
                TokenType::True => seq![OpCode::True],
                _ => seq![OpCode::Nil],
            },
            Expr::Group(inner) => inner.code(first),
            Expr::Unary(operator, operand) => operand.code(first).push(
                if operator == TokenType::Bang {
                    OpCode::Not
                } else {
                    OpCode::Negate
                },
            ),
            Expr::Binary(operator, left, right) => left.code(first) + right.code(
                first + left.numbers(),
            ) + operator_code(operator),
        }
    }

    /// The values of the number literals of the tree, from left to right.
    pub open spec fn constants(self) -> Seq<Value>
        decreases self,
    {
        match self {
            Expr::Number(value) => seq![Value::Number(value)],
            Expr::Literal(_) => seq![],
            Expr::Group(inner) => inner.constants(),
            Expr::Unary(_, operand) => operand.constants(),
            Expr::Binary(_, left, right) => left.constants() + right.constants(),
        }
    }
}

/// How tightly token `i` binds as an infix operator; the end of the tokens
/// does not bind.
pub open spec fn binding(tokens: Seq<TokenView>, i: int) -> nat {
    if 0 <= i < tokens.len() {
        rule(tokens[i].token_type).precedence.level()
    } else {
        0
    }
}

/// The compiler after it has advanced over one token.
pub open spec fn stepped(c: CompilerView) -> CompilerView {
    CompilerView { parser: c.parser.advance(), ..c }
}

/// The compiler after it has read the tokens of a tree and emitted its code,
/// going by the tree: a literal by its production, parentheses round their
/// inside, a prefix operator after its operand, an infix operator after both
/// operands.
pub open spec fn after(c: CompilerView, e: Expr) -> CompilerView
    decreases e,
{
    match e {
        Expr::Number(_) => stepped(c).number(),
        Expr::Literal(_) => stepped(c).literal(),
        Expr::Group(inner) => {
            let inside = after(stepped(c), *inner);
            CompilerView {
                parser: inside.parser.consume(
                    TokenType::RightParen,
                    "Expected ')' after expression"@,
                ),
                ..inside
            }
        },
        Expr::Unary(operator, operand) => {
            let done = after(stepped(c), *operand);
            if operator == TokenType::Bang {
                done.emit(OpCode::Not)
            } else {
                done.emit(OpCode::Negate)
            }
        },
        Expr::Binary(operator, left, right) => after(stepped(after(c, *left)), *right).emit_operator(
            operator,
        ),
    }
}

/// A loop that takes the operators of some level and above, and then a loop
/// that takes those of a lower level and above, do what the second loop does
/// alone.
pub proof fn lemma_loop_split(c: CompilerView, higher: Precedence, lower: Precedence)
    requires
        c.wf(),
        lower.level() <= higher.level(),
        higher.level() >= 1,
    ensures
        c.infix_loop(higher).infix_loop(lower) == c.infix_loop(lower),
    decreases c.measure(),
{
    lemma_infix_loop_unfolds(c, higher);
    lemma_infix_loop_unfolds(c, lower);
    let reach = match c.parser.current {
        Some(token) => rule(token.token_type).precedence,
        None => Precedence::Lowest,
    };
    if higher.level() <= reach.level() {
        lemma_advance_measure(c.parser);
        let start = stepped(c);
        let token = start.parser.previous->0;
        match rule(token.token_type).infix {
            Some(f) => {
                lemma_production(start, f);
                lemma_loop_split(start.production(f), higher, lower);
            },
            None => {
                lemma_loop_split(start, higher, lower);
            },
        }
    }
}



/// What is asked of a tree and of the compiler that is about to read it at
/// the level `precedence`: the tokens from `from` on spell the tree, the
/// first of them is the current token, the pool has room for the numbers of
/// the tree, the tree holds together at that level, and the token behind the
/// tree does not bind more tightly than the tree holds together.
pub open spec fn reads(
    c: CompilerView,
    tokens: Seq<TokenView>,
    e: Expr,
    from: int,
    precedence: Precedence,
) -> bool {
    &&& e.wf()
    &&& e.spelled(tokens, from)
    &&& at(c, tokens, from)
    &&& c.chunk.constants.len() + e.numbers() <= MAX_CONSTANTS
    &&& e.level() >= precedence.level()
    &&& binding(tokens, from + e.width()) <= e.level()
}

/// What holds once the tree is read: the compiler has found no error and
/// stands behind the tokens of the tree, and the chunk has the code and the
/// constants of the tree at its end.
pub open spec fn has_read(c: CompilerView, tokens: Seq<TokenView>, e: Expr, from: int) -> bool {
    &&& at(after(c, e), tokens, from + e.width())
    &&& after(c, e).measure() < c.measure()
    &&& after(c, e).parser.previous is Some
    &&& after(c, e).chunk.code == c.chunk.code + e.code(c.chunk.constants.len())
    &&& after(c, e).chunk.constants == c.chunk.constants + e.constants()
    &&& rule(tokens[from].token_type).prefix is Some
}

/// A tree has as many constants as number literals.
pub proof fn lemma_constants_len(e: Expr)
    ensures
        e.constants().len() == e.numbers(),
    decreases e,
{
    match e {
        Expr::Group(inner) => lemma_constants_len(*inner),
        Expr::Unary(_, operand) => lemma_constants_len(*operand),
        Expr::Binary(_, left, right) => {
            lemma_constants_len(*left);
            lemma_constants_len(*right);
        },
        _ => {},
    }
}

/// A tree of the grammar holds together at least as tightly as the loosest
/// operator binds, and an infix operator binds less tightly than a prefix
/// operator.
pub proof fn lemma_level(e: Expr)
    requires
        e.wf(),
    ensures
        e.level() >= Precedence::Equality.level(),
        e matches Expr::Binary(operator, _, _) ==> e.level() < Precedence::Unary.level() && rule(
            operator,
        ).precedence.next().level() == e.level() + 1,
{
}

/// The loop behind a tree at whose end no operator binds tightly enough
/// takes nothing.
proof fn lemma_loop_stops(c: CompilerView, tokens: Seq<TokenView>, i: int, precedence: Precedence)
    requires
        at(c, tokens, i),
        0 <= i,
        binding(tokens, i) < precedence.level(),
    ensures
        c.infix_loop(precedence) == c,
{
}

proof fn lemma_reads_leaf(
    c: CompilerView,
    tokens: Seq<TokenView>,
    e: Expr,
    from: int,
    precedence: Precedence,
)
    requires
        reads(c, tokens, e, from, precedence),
        e is Number || e is Literal,
    ensures
        c.parse_precedence(precedence) == after(c, e).infix_loop(precedence),
        has_read(c, tokens, e, from),
{
    lemma_step(c, tokens, from);
    lemma_parse_precedence_unfolds(c, precedence);
    let start = stepped(c);
    match e {
        Expr::Number(value) => {
            assert(start.production(ParseFn::Number) == start.number());
            assert(after(c, e).chunk.code =~= c.chunk.code + e.code(c.chunk.constants.len()));
            assert(after(c, e).chunk.constants =~= c.chunk.constants + e.constants());
        },
        _ => {
            assert(start.production(ParseFn::Literal) == start.literal());
            assert(after(c, e).chunk.code =~= c.chunk.code + e.code(c.chunk.constants.len()));
            assert(after(c, e).chunk.constants =~= c.chunk.constants + e.constants());
        },
    }
}

/// The production of parentheses, given what reading their inside does.
proof fn lemma_grouping(
    start: CompilerView,
    inside: CompilerView,
    tokens: Seq<TokenView>,
    close: int,
)
    requires
        start.wf(),
        start.parse_precedence(Precedence::Assignment) == inside.infix_loop(
            Precedence::Assignment,
        ),
        at(inside, tokens, close),
        0 <= close < tokens.len(),
        tokens[close].token_type == TokenType::RightParen,
    ensures
        start.production(ParseFn::Grouping) == (CompilerView {
            parser: inside.parser.consume(
                TokenType::RightParen,
                "Expected ')' after expression"@,
            ),
            ..inside
        }),
        at(start.production(ParseFn::Grouping), tokens, close + 1),
        start.production(ParseFn::Grouping).measure() < inside.measure(),
        start.production(ParseFn::Grouping).parser.previous is Some,
        start.production(ParseFn::Grouping).chunk == inside.chunk,
{
    lemma_loop_stops(inside, tokens, close, Precedence::Assignment);
    lemma_step(inside, tokens, close);
    assert(start.expression() == inside);
    assert(inside.parser.consume(TokenType::RightParen, "Expected ')' after expression"@)
        == inside.parser.advance());
}

proof fn lemma_reads_group(
    c: CompilerView,
    tokens: Seq<TokenView>,
    e: Expr,
    from: int,
    precedence: Precedence,
)
    requires
        reads(c, tokens, e, from, precedence),
        e is Group,
    ensures
        c.parse_precedence(precedence) == after(c, e).infix_loop(precedence),
        has_read(c, tokens, e, from),
    decreases e, 0int,
{
    let inner = *e->Group_0;
    lemma_step(c, tokens, from);
    let start = stepped(c);
    lemma_level(inner);
    assert(inner.spelled(tokens, from + 1));
    assert(binding(tokens, from + 1 + inner.width()) == 0);
    assert(reads(start, tokens, inner, from + 1, Precedence::Assignment));
    lemma_reads(start, tokens, inner, from + 1, Precedence::Assignment);
    let inside = after(start, inner);
    lemma_grouping(start, inside, tokens, from + 1 + inner.width());
    assert(start.production(ParseFn::Grouping) == after(c, e));
    assert(c.parse_precedence(precedence) == after(c, e).infix_loop(precedence)) by {
        lemma_parse_precedence_unfolds(c, precedence);
    }
}

proof fn lemma_reads_unary(
    c: CompilerView,
    tokens: Seq<TokenView>,
    e: Expr,
    from: int,
    precedence: Precedence,
)
    requires
        reads(c, tokens, e, from, precedence),
        e is Unary,
    ensures
        c.parse_precedence(precedence) == after(c, e).infix_loop(precedence),
        has_read(c, tokens, e, from),
    decreases e, 0int,
{
    let operand = *e->Unary_1;
    lemma_step(c, tokens, from);
    lemma_parse_precedence_unfolds(c, precedence);
    let start = stepped(c);
    lemma_reads(start, tokens, operand, from + 1, Precedence::Unary);
    let done = after(start, operand);
    lemma_loop_stops(done, tokens, from + 1 + operand.width(), Precedence::Unary);
    assert(start.parse_precedence(Precedence::Unary) == done);
    assert(start.production(ParseFn::Unary) == after(c, e));
    assert(after(c, e).chunk.code =~= c.chunk.code + e.code(c.chunk.constants.len()));
}

/// Reading at a level is reading at a higher level and then taking the
/// operators that follow, where the first token starts an expression.
proof fn lemma_reread(c: CompilerView, higher: Precedence, lower: Precedence)
    requires
        c.wf(),
        lower.level() <= higher.level(),
        higher.level() >= 1,
        stepped(c).parser.previous is Some,
        rule(stepped(c).parser.previous->0.token_type).prefix is Some,
    ensures
        c.parse_precedence(lower) == c.parse_precedence(higher).infix_loop(lower),
{
    lemma_advance_measure(c.parser);
    lemma_parse_precedence_unfolds(c, lower);
    lemma_parse_precedence_unfolds(c, higher);
    let start = stepped(c);
    let f = rule(start.parser.previous->0.token_type).prefix->0;
    lemma_production(start, f);
    lemma_loop_split(start.production(f), higher, lower);
}

/// One turn of the loop: an operator that binds tightly enough, its right
/// operand, and its instructions.
proof fn lemma_operator_turn(
    read_left: CompilerView,
    read_right: CompilerView,
    tokens: Seq<TokenView>,
    middle: int,
    end: int,
    operator: TokenType,
    precedence: Precedence,
)
    requires
        at(read_left, tokens, middle),
        0 <= middle < end,
        tokens[middle].token_type == operator,
        rule(operator).infix == Some(ParseFn::Binary),
        rule(operator).precedence.level() >= precedence.level(),
        stepped(read_left).parse_precedence(rule(operator).precedence.next())
            == read_right.infix_loop(rule(operator).precedence.next()),
        at(read_right, tokens, end),
        end <= tokens.len(),
        binding(tokens, end) <= rule(operator).precedence.level(),
    ensures
        read_left.infix_loop(precedence) == read_right.emit_operator(operator).infix_loop(
            precedence,
        ),
        stepped(read_left).production(ParseFn::Binary) == read_right.emit_operator(operator),
        at(read_right.emit_operator(operator), tokens, end),
{
    let own = rule(operator).precedence;
    lemma_infix_loop_unfolds(read_left, precedence);
    lemma_step(read_left, tokens, middle);
    let behind = stepped(read_left);
    lemma_loop_stops(read_right, tokens, end, own.next());
    assert(behind.parse_precedence(own.next()) == read_right);
    assert(behind.binary() == read_right.emit_operator(operator));
    lemma_emit_operator(read_right, operator);
}

/// The code and the constants of an infix expression are those of its
/// operands and of its operator, in turn.
proof fn lemma_binary_chunk(
    c: CompilerView,
    read_left: CompilerView,
    read_right: CompilerView,
    e: Expr,
)
    requires
        e is Binary,
        read_left.chunk.code == c.chunk.code + e->Binary_1.code(c.chunk.constants.len()),
        read_left.chunk.constants == c.chunk.constants + e->Binary_1.constants(),
        read_right.chunk.code == read_left.chunk.code + e->Binary_2.code(
            read_left.chunk.constants.len(),
        ),
        read_right.chunk.constants == read_left.chunk.constants + e->Binary_2.constants(),
    ensures
        read_right.emit_operator(e->Binary_0).chunk.code == c.chunk.code + e.code(
            c.chunk.constants.len(),
        ),
        read_right.emit_operator(e->Binary_0).chunk.constants == c.chunk.constants
            + e.constants(),
{
    let left = *e->Binary_1;
    let right = *e->Binary_2;
    lemma_constants_len(left);
    lemma_emit_operator(read_right, e->Binary_0);
    let first = c.chunk.constants.len();
    assert(read_left.chunk.constants.len() == first + left.numbers());
    assert(e.code(first) == left.code(first) + right.code(first + left.numbers())
        + operator_code(e->Binary_0));
    assert(read_right.emit_operator(e->Binary_0).chunk.code =~= c.chunk.code + e.code(first));
    assert(read_right.emit_operator(e->Binary_0).chunk.constants =~= c.chunk.constants
        + e.constants());
}

/// The left operand of an infix expression can be read at the level of the
/// operator.
proof fn lemma_left_reads(
    c: CompilerView,
    tokens: Seq<TokenView>,
    e: Expr,
    from: int,
    precedence: Precedence,
)
    requires
        reads(c, tokens, e, from, precedence),
        e is Binary,
    ensures
        reads(c, tokens, *e->Binary_1, from, rule(e->Binary_0).precedence),
        rule(e->Binary_0).precedence.level() >= 1,
        precedence.level() <= rule(e->Binary_0).precedence.level(),
{
    lemma_level(e);
}

/// Behind the left operand and the operator, the right operand can be read
/// one level above the operator.
proof fn lemma_right_reads(
    c: CompilerView,
    tokens: Seq<TokenView>,
    e: Expr,
    from: int,
    precedence: Precedence,
)
    requires
        reads(c, tokens, e, from, precedence),
        e is Binary,
        has_read(c, tokens, *e->Binary_1, from),
    ensures
        reads(
            stepped(after(c, *e->Binary_1)),
            tokens,
            *e->Binary_2,
            from + e->Binary_1.width() + 1,
            rule(e->Binary_0).precedence.next(),
        ),
        stepped(after(c, *e->Binary_1)).measure() < after(c, *e->Binary_1).measure(),
{
    let left = *e->Binary_1;
    lemma_level(e);
    lemma_constants_len(left);
    lemma_step(after(c, left), tokens, from + left.width());
}

/// An infix expression is read once its operands are.
proof fn lemma_binary_read(
    c: CompilerView,
    tokens: Seq<TokenView>,
    e: Expr,
    from: int,
    precedence: Precedence,
)
    requires
        reads(c, tokens, e, from, precedence),
        e is Binary,
        has_read(c, tokens, *e->Binary_1, from),
        c.parse_precedence(rule(e->Binary_0).precedence) == after(c, *e->Binary_1).infix_loop(
            rule(e->Binary_0).precedence,
        ),
        has_read(
            stepped(after(c, *e->Binary_1)),
            tokens,
            *e->Binary_2,
            from + e->Binary_1.width() + 1,
        ),
        stepped(after(c, *e->Binary_1)).parse_precedence(rule(e->Binary_0).precedence.next())
            == after(stepped(after(c, *e->Binary_1)), *e->Binary_2).infix_loop(
            rule(e->Binary_0).precedence.next(),
        ),
        stepped(after(c, *e->Binary_1)).measure() < after(c, *e->Binary_1).measure(),
    ensures
        c.parse_precedence(precedence) == after(c, e).infix_loop(precedence),
        has_read(c, tokens, e, from),
{
    let operator = e->Binary_0;
    let left = *e->Binary_1;
    let right = *e->Binary_2;
    let own = rule(operator).precedence;
    let middle = from + left.width();
    let end = from + e.width();
    let read_left = after(c, left);
    let read_right = after(stepped(read_left), right);
    lemma_level(e);
    assert(c.parse_precedence(precedence) == read_left.infix_loop(precedence)) by {
        lemma_step(c, tokens, from);
        lemma_reread(c, own, precedence);
        lemma_loop_split(read_left, own, precedence);
    }
    lemma_operator_turn(read_left, read_right, tokens, middle, end, operator, precedence);
    lemma_binary_chunk(c, read_left, read_right, e);
    assert(after(c, e) == read_right.emit_operator(operator));
}

proof fn lemma_reads_binary(
    c: CompilerView,
    tokens: Seq<TokenView>,
    e: Expr,
    from: int,
    precedence: Precedence,
)
    requires
        reads(c, tokens, e, from, precedence),
        e is Binary,
    ensures
        c.parse_precedence(precedence) == after(c, e).infix_loop(precedence),
        has_read(c, tokens, e, from),
    decreases e, 0int,
{
    let operator = e->Binary_0;
    let left = *e->Binary_1;
    let right = *e->Binary_2;
    let own = rule(operator).precedence;
    lemma_left_reads(c, tokens, e, from, precedence);
    lemma_reads(c, tokens, left, from, own);
    lemma_right_reads(c, tokens, e, from, precedence);
    lemma_reads(stepped(after(c, left)), tokens, right, from + left.width() + 1, own.next());
    lemma_binary_read(c, tokens, e, from, precedence);
}

/// The compiler reads the tokens of a tree as the tree is built: reading at
/// a level at which the tree holds together is reading the tree and then
/// taking the operators that follow it. The chunk then has the code and the
/// constants of the tree at its end.
pub proof fn lemma_reads(
    c: CompilerView,
    tokens: Seq<TokenView>,
    e: Expr,
    from: int,
    precedence: Precedence,
)
    requires
        reads(c, tokens, e, from, precedence),
    ensures
        c.parse_precedence(precedence) == after(c, e).infix_loop(precedence),
        has_read(c, tokens, e, from),
    decreases e, 1int,
{
    match e {
        Expr::Group(_) => lemma_reads_group(c, tokens, e, from, precedence),
        Expr::Unary(_, _) => lemma_reads_unary(c, tokens, e, from, precedence),
        Expr::Binary(_, _, _) => lemma_reads_binary(c, tokens, e, from, precedence),
        _ => lemma_reads_leaf(c, tokens, e, from, precedence),
    }
}


/// A source that scans, without an error, to the tokens of a tree of the
/// grammar with no more than 256 number literals compiles to the code of the
/// tree and a final `Return`, with the values of the literals as constants.
pub proof fn lemma_compiles_tree(source: Seq<u8>, tokens: Seq<TokenView>, e: Expr)
    requires
        valid_utf8(source),
        source.len() < usize::MAX,
        scans_to(ScannerView { rest: source, line: 1 }, tokens, 0),
        e.wf(),
        e.spelled(tokens, 0),
        e.width() == tokens.len(),
        e.numbers() <= MAX_CONSTANTS,
    ensures
        compile_source(source) is Ok,
        compile_source(source)->Ok_0.code == e.code(0).push(OpCode::Return),
        compile_source(source)->Ok_0.constants == e.constants(),
{
    let begin = ParserView::start(source);
    lemma_count_newlines_split(source, 0);
    lemma_advance_measure(begin);
    let start = CompilerView::start(source);
    assert(start.parser == begin.fetch());
    assert(at(start, tokens, 0));
    lemma_level(e);
    lemma_reads(start, tokens, e, 0, Precedence::Assignment);
    let read = after(start, e);
    lemma_loop_stops(read, tokens, tokens.len() as int, Precedence::Assignment);
    assert(start.expression() == read);
    let end = start.compile();
    assert(end == read.emit(OpCode::Return));
    assert(end.chunk.code =~= e.code(0).push(OpCode::Return));
    assert(end.chunk.constants =~= e.constants());
}

/// True when two executions end alike but for the line that a fault names.
pub open spec fn same_end(first: Outcome, second: Outcome) -> bool {
    match first {
        Outcome::Value { value, ip, stack } => second == first,
        Outcome::Fault { message, line, ip } => second is Fault && second->Fault_message
            == message && second->Fault_ip == ip,
        Outcome::Stuck => second is Stuck,
    }
}

/// Two chunks with the same code and the same constants execute alike; only
/// the lines that they name can differ.
pub proof fn lemma_same_code(first: ChunkView, second: ChunkView, ip: int, stack: Seq<Value>)
    requires
        first.code == second.code,
        first.constants == second.constants,
    ensures
        same_end(execute(first, ip, stack), execute(second, ip, stack)),
    decreases first.code.len() - ip,
{
    if 0 <= ip < first.code.len() {
        if let Step::Next(next) = step(first.code[ip], first.constants, stack) {
            lemma_same_code(first, second, ip + 1, next);
        }
    }
}

/// The operator of which `!=`, `>=` or `<=` is the negation.
pub open spec fn negated_operator(operator: TokenType) -> TokenType {
    match operator {
        TokenType::BangEqual => TokenType::EqualEqual,
        TokenType::GreaterEqual => TokenType::Less,
        _ => TokenType::Greater,
    }
}

/// `(a) != (b)` as a tree, and likewise with `>=` or `<=`.
pub open spec fn compared(operator: TokenType, a: Expr, b: Expr) -> Expr {
    Expr::Binary(operator, Box::new(Expr::Group(Box::new(a))), Box::new(Expr::Group(Box::new(b))))
}

/// `!((a) == (b))` as a tree, and likewise with `<` or `>`.
pub open spec fn negation(operator: TokenType, a: Expr, b: Expr) -> Expr {
    Expr::Unary(
        TokenType::Bang,
        Box::new(Expr::Group(Box::new(compared(negated_operator(operator), a, b)))),
    )
}

/// What the tree of two operands in parentheses with an infix operator
/// between them is made of.
proof fn lemma_compared(operator: TokenType, a: Expr, b: Expr, first: nat)
    requires
        rule(operator).infix == Some(ParseFn::Binary),
        a.wf(),
        b.wf(),
    ensures
        compared(operator, a, b).wf(),
        compared(operator, a, b).numbers() == a.numbers() + b.numbers(),
        compared(operator, a, b).constants() == a.constants() + b.constants(),
        compared(operator, a, b).code(first) == a.code(first) + b.code(first + a.numbers())
            + operator_code(operator),
{
    let left = Expr::Group(Box::new(a));
    let right = Expr::Group(Box::new(b));
    assert(left.wf() && right.wf());
    assert(left.numbers() == a.numbers() && right.numbers() == b.numbers());
    assert(left.constants() == a.constants() && right.constants() == b.constants());
    assert(left.code(first) == a.code(first));
    assert(right.code(first + a.numbers()) == b.code(first + a.numbers()));
}

/// What the tree of a negated comparison is made of.
proof fn lemma_negation(operator: TokenType, a: Expr, b: Expr, first: nat)
    requires
        rule(negated_operator(operator)).infix == Some(ParseFn::Binary),
        a.wf(),
        b.wf(),
    ensures
        negation(operator, a, b).wf(),
        negation(operator, a, b).numbers() == a.numbers() + b.numbers(),
        negation(operator, a, b).constants() == a.constants() + b.constants(),
        negation(operator, a, b).code(first) == (a.code(first) + b.code(first + a.numbers())
            + operator_code(negated_operator(operator))).push(OpCode::Not),
{
    let inner = compared(negated_operator(operator), a, b);
    lemma_compared(negated_operator(operator), a, b, first);
    let group = Expr::Group(Box::new(inner));
    assert(group.wf());
    assert(group.numbers() == inner.numbers());
    assert(group.constants() == inner.constants());
    assert(group.code(first) == inner.code(first));
}

/// A comparison and the negation of its opposite are trees of the grammar
/// with the same code and the same constants.
proof fn lemma_negated_code(operator: TokenType, a: Expr, b: Expr)
    requires
        operator == TokenType::BangEqual || operator == TokenType::GreaterEqual || operator
            == TokenType::LessEqual,
        a.wf(),
        b.wf(),
    ensures
        compared(operator, a, b).wf(),
        negation(operator, a, b).wf(),
        compared(operator, a, b).numbers() == a.numbers() + b.numbers(),
        negation(operator, a, b).numbers() == a.numbers() + b.numbers(),
        compared(operator, a, b).code(0) == negation(operator, a, b).code(0),
        compared(operator, a, b).constants() == negation(operator, a, b).constants(),
{
    lemma_compared(operator, a, b, 0);
    lemma_negation(operator, a, b, 0);
    let operands = a.code(0) + b.code(0 + a.numbers());
    assert(operands + operator_code(operator) =~= (operands + operator_code(
        negated_operator(operator),
    )).push(OpCode::Not));
}

/// Whatever the expressions `a` and `b` are, a source of `(a) != (b)` and a
/// source of `!((a) == (b))` compile to the same code with the same
/// constants, and so they execute alike: to the same value, or to the same
/// fault. The same holds of `(a) >= (b)` and `!((a) < (b))`, and of
/// `(a) <= (b)` and `!((a) > (b))`.
pub proof fn lemma_negated_comparison(
    operator: TokenType,
    a: Expr,
    b: Expr,
    first: Seq<u8>,
    first_tokens: Seq<TokenView>,
    second: Seq<u8>,
    second_tokens: Seq<TokenView>,
    stack: Seq<Value>,
)
    requires
        operator == TokenType::BangEqual || operator == TokenType::GreaterEqual || operator
            == TokenType::LessEqual,
        a.wf(),
        b.wf(),
        a.numbers() + b.numbers() <= MAX_CONSTANTS,
        valid_utf8(first),
        first.len() < usize::MAX,
        scans_to(ScannerView { rest: first, line: 1 }, first_tokens, 0),
        compared(operator, a, b).spelled(first_tokens, 0),
        compared(operator, a, b).width() == first_tokens.len(),
        valid_utf8(second),
        second.len() < usize::MAX,
        scans_to(ScannerView { rest: second, line: 1 }, second_tokens, 0),
        negation(operator, a, b).spelled(second_tokens, 0),
        negation(operator, a, b).width() == second_tokens.len(),
    ensures
        compile_source(first) is Ok,
        compile_source(second) is Ok,
        compile_source(first)->Ok_0.code == compile_source(second)->Ok_0.code,
        compile_source(first)->Ok_0.constants == compile_source(second)->Ok_0.constants,
        same_end(
            execute(compile_source(first)->Ok_0, 0, stack),
            execute(compile_source(second)->Ok_0, 0, stack),
        ),
{
    lemma_negated_code(operator, a, b);
    lemma_compiles_tree(first, first_tokens, compared(operator, a, b));
    lemma_compiles_tree(second, second_tokens, negation(operator, a, b));
    lemma_same_code(compile_source(first)->Ok_0, compile_source(second)->Ok_0, 0, stack);
}

/// What an infix operator makes of two values: its result, or the message of
/// the runtime error where it needs two numbers and does not find them.
pub open spec fn operator_value(operator: TokenType, a: Value, b: Value) -> Result<
    Value,
    Seq<char>,
> {
    if operator == TokenType::EqualEqual {
        Ok(Value::Bool(a.same(b)))
    } else if operator == TokenType::BangEqual {
        Ok(Value::Bool(!a.same(b)))
    } else if a is Number && b is Number {
        Ok(
            match operator {
                TokenType::Plus => a.add_spec(b),
                TokenType::Minus => a.sub_spec(b),
                TokenType::Star => a.mul_spec(b),
                TokenType::Slash => a.div_spec(b),
                TokenType::Greater => Value::Bool(number_lt(b->Number_0, a->Number_0)),
                TokenType::GreaterEqual => Value::Bool(!number_lt(a->Number_0, b->Number_0)),
                TokenType::Less => Value::Bool(number_lt(a->Number_0, b->Number_0)),
                _ => Value::Bool(!number_lt(b->Number_0, a->Number_0)),
            },
        )
    } else {
        Err("Operands must be numbers"@)
    }
}

impl Expr {
    /// The value of the tree, or the message of its runtime error. Operands
    /// are evaluated before their operator, the left one first, and the
    /// first error ends the evaluation.
    pub open spec fn value(self) -> Result<Value, Seq<char>>
        decreases self,
    {
        match self {
            Expr::Number(bits) => Ok(Value::Number(bits)),
            Expr::Literal(kind) => Ok(
                match kind {
                    TokenType::False => Value::Bool(false),
                    TokenType::True => Value::Bool(true),
                    _ => Value::Nil,
                },
            ),
            Expr::Group(inner) => inner.value(),
            Expr::Unary(operator, operand) => match operand.value() {
                Ok(v) => if operator == TokenType::Bang {
                    Ok(v.not_spec())
                } else if v is Number {
                    Ok(v.neg_spec())
                } else {
                    Err("Operand must be a number"@)
                },
                Err(message) => Err(message),
            },
            Expr::Binary(operator, left, right) => match left.value() {
                Ok(a) => match right.value() {
                    Ok(b) => operator_value(operator, a, b),
                    Err(message) => Err(message),
                },
                Err(message) => Err(message),
            },
        }
    }
}

/// What running code amounts to where it stands for a value or an error:
/// the value is pushed, or the run ends with the error.
pub open spec fn pushes(stack: Seq<Value>, value: Result<Value, Seq<char>>) -> Step {
    match value {
        Ok(v) => Step::Next(stack.push(v)),
        Err(message) => Step::Fault(message),
    }
}

/// The instructions of an infix operator, run on its two operands, leave
/// what the operator makes of them.
pub proof fn lemma_operator_value(
    operator: TokenType,
    a: Value,
    b: Value,
    constants: Seq<Value>,
    stack: Seq<Value>,
)
    requires
        rule(operator).infix == Some(ParseFn::Binary),
    ensures
        run_all(operator_code(operator), constants, stack.push(a).push(b)) == pushes(
            stack,
            operator_value(operator, a, b),
        ),
{
    let both = stack.push(a).push(b);
    assert(both.take(stack.len() as int) =~= stack);
    reveal_with_fuel(run_all, 3);
    assert forall|first: OpCode| #![auto] seq![first, OpCode::Not].skip(1).skip(1) =~= Seq::<
        OpCode,
    >::empty() && seq![first, OpCode::Not].skip(1) =~= seq![OpCode::Not] && seq![first].skip(1)
        =~= Seq::<OpCode>::empty() by {}
    assert forall|v: Value| #![auto] stack.push(v).take(stack.len() as int) =~= stack by {}
}

/// The code of a tree of the grammar, run with a pool that holds the
/// constants of the tree from index `first` on, pushes the value of the
/// tree, or ends with its error.
pub proof fn lemma_code_value(e: Expr, first: nat, constants: Seq<Value>, stack: Seq<Value>)
    requires
        e.wf(),
        first + e.numbers() <= constants.len(),
        constants.len() <= MAX_CONSTANTS,
        constants.subrange(first as int, (first + e.numbers()) as int) == e.constants(),
    ensures
        run_all(e.code(first), constants, stack) == pushes(stack, e.value()),
    decreases e,
{
    reveal_with_fuel(run_all, 2);
    match e {
        Expr::Number(bits) => {
            assert(e.code(first).skip(1) =~= Seq::<OpCode>::empty());
            assert(constants[first as int] == e.constants()[0]);
        },
        Expr::Literal(kind) => {
            assert(e.code(first).skip(1) =~= Seq::<OpCode>::empty());
        },
        Expr::Group(inner) => {
            lemma_code_value(*inner, first, constants, stack);
        },
        Expr::Unary(operator, operand) => {
            lemma_code_value(*operand, first, constants, stack);
            let op = if operator == TokenType::Bang {
                OpCode::Not
            } else {
                OpCode::Negate
            };
            assert(e.code(first) =~= operand.code(first) + seq![op]);
            lemma_run_all_append(operand.code(first), seq![op], constants, stack);
            assert(seq![op].skip(1) =~= Seq::<OpCode>::empty());
            if let Ok(v) = operand.value() {
                assert(stack.push(v).take(stack.len() as int) =~= stack);
            }
        },
        Expr::Binary(operator, left, right) => {
            lemma_constants_len(*left);
            lemma_constants_len(*right);
            let middle = first + left.numbers();
            let whole = constants.subrange(first as int, (first + e.numbers()) as int);
            assert(whole == left.constants() + right.constants());
            assert(forall|i: int|
                0 <= i < left.numbers() ==> constants[first + i] == whole[i] && whole[i]
                    == left.constants()[i]);
            assert(forall|i: int|
                0 <= i < right.numbers() ==> constants[middle + i] == whole[left.numbers() + i]
                    && whole[left.numbers() + i] == right.constants()[i]);
            assert(constants.subrange(first as int, middle as int) =~= left.constants());
            assert(constants.subrange(middle as int, (middle + right.numbers()) as int)
                =~= right.constants());
            lemma_code_value(*left, first, constants, stack);
            lemma_run_all_append(
                left.code(first),
                right.code(middle) + operator_code(operator),
                constants,
                stack,
            );
            assert(e.code(first) =~= left.code(first) + (right.code(middle) + operator_code(
                operator,
            )));
            if let Ok(a) = left.value() {
                lemma_code_value(*right, middle, constants, stack.push(a));
                lemma_run_all_append(
                    right.code(middle),
                    operator_code(operator),
                    constants,
                    stack.push(a),
                );
                if let Ok(b) = right.value() {
                    lemma_operator_value(operator, a, b, constants, stack);
                }
            }
        },
    }
}

/// Where the code before a final `Return` ends with a fault, so does the
/// execution of the chunk, with the same message.
pub proof fn lemma_execute_fault(chunk: ChunkView, from: int, stack: Seq<Value>)
    requires
        chunk.code.len() >= 1,
        0 <= from < chunk.code.len(),
        run_all(chunk.code.subrange(from, chunk.code.len() - 1), chunk.constants, stack)
            is Fault,
    ensures
        execute(chunk, from, stack) is Fault,
        execute(chunk, from, stack)->Fault_message == run_all(
            chunk.code.subrange(from, chunk.code.len() - 1),
            chunk.constants,
            stack,
        )->Fault_0,
    decreases chunk.code.len() - from,
{
    let last = chunk.code.len() - 1;
    let ops = chunk.code.subrange(from, last);
    if from < last {
        assert(ops[0] == chunk.code[from]);
        assert(ops.skip(1) =~= chunk.code.subrange(from + 1, last));
        if let Step::Next(next) = step(chunk.code[from], chunk.constants, stack) {
            lemma_execute_fault(chunk, from + 1, next);
        }
    }
}

/// A source that scans, without an error, to the tokens of a tree of the
/// grammar with no more than 256 number literals compiles, and executing the
/// chunk on any stack yields the value of the tree and leaves the stack as
/// it was, or ends with the runtime error of the tree.
pub proof fn lemma_interprets_tree(
    source: Seq<u8>,
    tokens: Seq<TokenView>,
    e: Expr,
    stack: Seq<Value>,
)
    requires
        valid_utf8(source),
        source.len() < usize::MAX,
        scans_to(ScannerView { rest: source, line: 1 }, tokens, 0),
        e.wf(),
        e.spelled(tokens, 0),
        e.width() == tokens.len(),
        e.numbers() <= MAX_CONSTANTS,
    ensures
        compile_source(source) is Ok,
        match e.value() {
            Ok(v) => execute(compile_source(source)->Ok_0, 0, stack) == (Outcome::Value {
                value: v,
                ip: compile_source(source)->Ok_0.code.len() as int,
                stack,
            }),
            Err(message) => execute(compile_source(source)->Ok_0, 0, stack) is Fault && execute(
                compile_source(source)->Ok_0,
                0,
                stack,
            )->Fault_message == message,
        },
{
    lemma_compiles_tree(source, tokens, e);
    lemma_constants_len(e);
    let chunk = compile_source(source)->Ok_0;
    assert(chunk.constants.subrange(0, e.numbers() as int) =~= e.constants());
    lemma_code_value(e, 0, chunk.constants, stack);
    assert(chunk.code.subrange(0, chunk.code.len() - 1) =~= e.code(0));
    match e.value() {
        Ok(v) => {
            lemma_execute_run_all(chunk, 0, stack);
            assert(stack.push(v).drop_last() =~= stack);
        },
        Err(message) => {
            lemma_execute_fault(chunk, 0, stack);
        },
    }
}

/// `(a) != (b)` has the value of `!((a) == (b))`, which is true where the
/// values of `a` and `b` are of different kinds. `(a) >= (b)` has the value
/// of `!((a) < (b))`, and `(a) <= (b)` that of `!((a) > (b))`: the negated
/// comparison of the two numbers, or the same error.
pub proof fn lemma_negated_value(operator: TokenType, a: Expr, b: Expr)
    requires
        operator == TokenType::BangEqual || operator == TokenType::GreaterEqual || operator
            == TokenType::LessEqual,
    ensures
        compared(operator, a, b).value() == negation(operator, a, b).value(),
        a.value() is Ok && b.value() is Ok ==> compared(operator, a, b).value() == operator_value(
            operator,
            a.value()->Ok_0,
            b.value()->Ok_0,
        ),
{
    let left = Expr::Group(Box::new(a));
    let right = Expr::Group(Box::new(b));
    assert(left.value() == a.value() && right.value() == b.value());
    let inner = compared(negated_operator(operator), a, b);
    let group = Expr::Group(Box::new(inner));
    assert(group.value() == inner.value());
}

} // verus!
