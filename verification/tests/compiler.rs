use m2_rslox::chunk::OpCode;
use m2_rslox::compiler::{
    literal_constant, read_number, Compiler, ParseFn, ParseRule, Parser, Precedence,
};
use m2_rslox::scanner::TokenType;
use m2_rslox::value::Value;

fn compiled(source: &str) -> (Vec<OpCode>, Vec<usize>, Vec<f64>) {
    let mut compiler = Compiler::new(source);
    let chunk = match compiler.compile() {
        Ok(chunk) => chunk,
        Err(()) => panic!("does not compile: {:?}", compiler.diagnostics()),
    };
    let constants = chunk
        .constants()
        .iter()
        .map(|value| match value {
            Value::Number(bits) => f64::from_bits(*bits),
            other => panic!("a constant that is no number: {:?}", other),
        })
        .collect();
    (chunk.code().clone(), chunk.lines().clone(), constants)
}

fn messages(source: &str) -> Vec<String> {
    let mut compiler = Compiler::new(source);
    assert!(compiler.compile().is_err());
    compiler.into_diagnostics().iter().map(|d| d.message.to_string()).collect()
}

#[test]
fn parser_starts_without_tokens() {
    let parser = Parser::new("1 + 2");
    assert!(parser.previous.is_none());
    assert!(parser.current.is_none());
    assert!(!parser.had_error);
    assert!(!parser.panic_mode);
    assert!(parser.diagnostics.is_empty());
}

#[test]
fn parser_advance_shifts_the_tokens() {
    let mut parser = Parser::new("1 + 2");
    parser.advance();
    assert!(parser.previous.is_none());
    assert_eq!(parser.current.unwrap().span, "1");
    parser.advance();
    assert_eq!(parser.previous.unwrap().span, "1");
    assert_eq!(parser.current.unwrap().token_type, TokenType::Plus);
    parser.advance();
    parser.advance();
    assert_eq!(parser.previous.unwrap().span, "2");
    assert!(parser.current.is_none());
    parser.advance();
    assert!(parser.previous.is_none());
    assert!(parser.current.is_none());
    assert!(!parser.had_error);
}

#[test]
fn parser_advance_reports_scan_errors_and_goes_on() {
    let mut parser = Parser::new("@ # 1");
    parser.advance();
    assert_eq!(parser.current.unwrap().span, "1");
    assert!(parser.had_error);
    assert!(parser.panic_mode);
    assert_eq!(parser.diagnostics.len(), 1);
    assert_eq!(parser.diagnostics[0].message, "Unexpected character");
    assert_eq!(parser.diagnostics[0].line, 1);
    assert!(parser.diagnostics[0].location.is_none());
}

#[test]
fn parser_consume_takes_the_expected_token() {
    let mut parser = Parser::new(") 1");
    parser.advance();
    parser.consume(TokenType::RightParen, "Expected ')' after expression");
    assert!(!parser.had_error);
    assert_eq!(parser.previous.unwrap().token_type, TokenType::RightParen);
    assert_eq!(parser.current.unwrap().span, "1");
}

#[test]
fn parser_consume_reports_another_token() {
    let mut parser = Parser::new("\n 1");
    parser.advance();
    parser.consume(TokenType::RightParen, "Expected ')' after expression");
    assert!(parser.had_error);
    assert_eq!(parser.current.unwrap().span, "1");
    assert_eq!(parser.diagnostics.len(), 1);
    assert_eq!(parser.diagnostics[0].message, "Expected ')' after expression");
    assert_eq!(parser.diagnostics[0].location, Some("1"));
    assert_eq!(parser.diagnostics[0].line, 2);
}

#[test]
fn parser_error_is_reported_at_the_previous_token() {
    let mut parser = Parser::new("a\nb");
    parser.advance();
    parser.advance();
    parser.error("first");
    parser.error_at_current("second");
    assert_eq!(parser.diagnostics.len(), 1);
    assert_eq!(parser.diagnostics[0].message, "first");
    assert_eq!(parser.diagnostics[0].location, Some("a"));
    assert_eq!(parser.diagnostics[0].line, 1);
}

#[test]
fn parser_error_at_current_is_reported_at_the_current_token() {
    let mut parser = Parser::new("a\nb");
    parser.advance();
    parser.advance();
    parser.error_at_current("second");
    parser.error("first");
    assert_eq!(parser.diagnostics.len(), 1);
    assert_eq!(parser.diagnostics[0].message, "second");
    assert_eq!(parser.diagnostics[0].location, Some("b"));
    assert_eq!(parser.diagnostics[0].line, 2);
}

#[test]
fn parser_error_without_a_token_is_at_the_end() {
    let mut parser = Parser::new("a\n\n");
    parser.advance();
    parser.advance();
    parser.error_at_current("late");
    assert_eq!(parser.diagnostics[0].location, None);
    assert_eq!(parser.diagnostics[0].line, 3);
}

#[test]
fn precedence_below_is_the_next_level_up() {
    assert_eq!(Precedence::Lowest.below(), Precedence::Lowest);
    assert_eq!(Precedence::Assignment.below(), Precedence::Or);
    assert_eq!(Precedence::Or.below(), Precedence::And);
    assert_eq!(Precedence::And.below(), Precedence::Equality);
    assert_eq!(Precedence::Equality.below(), Precedence::Comparison);
    assert_eq!(Precedence::Comparison.below(), Precedence::Term);
    assert_eq!(Precedence::Term.below(), Precedence::Factor);
    assert_eq!(Precedence::Factor.below(), Precedence::Unary);
    assert_eq!(Precedence::Unary.below(), Precedence::Call);
    assert_eq!(Precedence::Call.below(), Precedence::Primary);
    assert_eq!(Precedence::Primary.below(), Precedence::Primary);
}

#[test]
fn precedence_ranks_rise_along_the_ladder() {
    let ladder = [
        Precedence::Lowest,
        Precedence::Assignment,
        Precedence::Or,
        Precedence::And,
        Precedence::Equality,
        Precedence::Comparison,
        Precedence::Term,
        Precedence::Factor,
        Precedence::Unary,
        Precedence::Call,
        Precedence::Primary,
    ];
    for (i, level) in ladder.iter().enumerate() {
        assert_eq!(level.rank() as usize, i);
    }
}

#[test]
fn parse_rules_of_the_table() {
    let rule = ParseRule::of(TokenType::LeftParen);
    assert_eq!((rule.prefix, rule.infix, rule.precedence), (Some(ParseFn::Grouping), None, Precedence::Lowest));
    let rule = ParseRule::of(TokenType::Minus);
    assert_eq!((rule.prefix, rule.infix, rule.precedence), (Some(ParseFn::Unary), Some(ParseFn::Binary), Precedence::Term));
    let rule = ParseRule::of(TokenType::Plus);
    assert_eq!((rule.prefix, rule.infix, rule.precedence), (None, Some(ParseFn::Binary), Precedence::Term));
    for kind in [TokenType::Star, TokenType::Slash] {
        let rule = ParseRule::of(kind);
        assert_eq!((rule.prefix, rule.infix, rule.precedence), (None, Some(ParseFn::Binary), Precedence::Factor));
    }
    let rule = ParseRule::of(TokenType::Bang);
    assert_eq!((rule.prefix, rule.infix, rule.precedence), (Some(ParseFn::Unary), None, Precedence::Lowest));
    for kind in [TokenType::BangEqual, TokenType::EqualEqual] {
        let rule = ParseRule::of(kind);
        assert_eq!((rule.prefix, rule.infix, rule.precedence), (None, Some(ParseFn::Binary), Precedence::Equality));
    }
    for kind in [TokenType::Greater, TokenType::GreaterEqual, TokenType::Less, TokenType::LessEqual] {
        let rule = ParseRule::of(kind);
        assert_eq!((rule.prefix, rule.infix, rule.precedence), (None, Some(ParseFn::Binary), Precedence::Comparison));
    }
    let rule = ParseRule::of(TokenType::Number);
    assert_eq!((rule.prefix, rule.infix, rule.precedence), (Some(ParseFn::Number), None, Precedence::Lowest));
    for kind in [TokenType::True, TokenType::False, TokenType::Nil] {
        let rule = ParseRule::of(kind);
        assert_eq!((rule.prefix, rule.infix, rule.precedence), (Some(ParseFn::Literal), None, Precedence::Lowest));
    }
    for kind in [
        TokenType::RightParen,
        TokenType::LeftBrace,
        TokenType::RightBrace,
        TokenType::Comma,
        TokenType::Dot,
        TokenType::Semicolon,
        TokenType::Equal,
        TokenType::Identifier,
        TokenType::String,
        TokenType::And,
        TokenType::Class,
        TokenType::Else,
        TokenType::For,
        TokenType::Fun,
        TokenType::If,
        TokenType::Or,
        TokenType::Print,
        TokenType::Return,
        TokenType::Super,
        TokenType::This,
        TokenType::Var,
        TokenType::While,
    ] {
        let rule = ParseRule::of(kind);
        assert_eq!((rule.prefix, rule.infix, rule.precedence), (None, None, Precedence::Lowest));
    }
}

#[test]
fn a_number_compiles_to_a_constant_and_return() {
    assert_eq!(
        compiled("1.5"),
        (vec![OpCode::Constant(0), OpCode::Return], vec![1, 1], vec![1.5])
    );
}

#[test]
fn literals_compile_to_their_instructions() {
    assert_eq!(compiled("nil").0, vec![OpCode::Nil, OpCode::Return]);
    assert_eq!(compiled("true").0, vec![OpCode::True, OpCode::Return]);
    assert_eq!(compiled("false").0, vec![OpCode::False, OpCode::Return]);
}

#[test]
fn binary_operators_compile_after_their_operands() {
    assert_eq!(
        compiled("1 + 2"),
        (
            vec![OpCode::Constant(0), OpCode::Constant(1), OpCode::Add, OpCode::Return],
            vec![1, 1, 1, 1],
            vec![1.0, 2.0]
        )
    );
    assert_eq!(compiled("1 - 2").0[2], OpCode::Sub);
    assert_eq!(compiled("1 * 2").0[2], OpCode::Mul);
    assert_eq!(compiled("1 / 2").0[2], OpCode::Div);
    assert_eq!(compiled("1 == 2").0[2..], [OpCode::Equal, OpCode::Return]);
    assert_eq!(compiled("1 != 2").0[2..], [OpCode::Equal, OpCode::Not, OpCode::Return]);
    assert_eq!(compiled("1 > 2").0[2..], [OpCode::Greater, OpCode::Return]);
    assert_eq!(compiled("1 >= 2").0[2..], [OpCode::Less, OpCode::Not, OpCode::Return]);
    assert_eq!(compiled("1 < 2").0[2..], [OpCode::Less, OpCode::Return]);
    assert_eq!(compiled("1 <= 2").0[2..], [OpCode::Greater, OpCode::Not, OpCode::Return]);
}

#[test]
fn not_equal_compiles_like_the_negation_of_equal() {
    assert_eq!(compiled("1 != 2").0, compiled("!(1 == 2)").0);
    assert_eq!(compiled("1 >= 2").0, compiled("!(1 < 2)").0);
    assert_eq!(compiled("1 <= 2").0, compiled("!(1 > 2)").0);
}

#[test]
fn unary_operators_compile_after_their_operand() {
    assert_eq!(compiled("-1").0, vec![OpCode::Constant(0), OpCode::Negate, OpCode::Return]);
    assert_eq!(compiled("!nil").0, vec![OpCode::Nil, OpCode::Not, OpCode::Return]);
    assert_eq!(
        compiled("!!-1").0,
        vec![OpCode::Constant(0), OpCode::Negate, OpCode::Not, OpCode::Not, OpCode::Return]
    );
    assert_eq!(
        compiled("-1 - -2").0,
        vec![
            OpCode::Constant(0),
            OpCode::Negate,
            OpCode::Constant(1),
            OpCode::Negate,
            OpCode::Sub,
            OpCode::Return
        ]
    );
}

#[test]
fn factors_bind_tighter_than_terms() {
    assert_eq!(
        compiled("1 + 2 * 3 - 4"),
        (
            vec![
                OpCode::Constant(0),
                OpCode::Constant(1),
                OpCode::Constant(2),
                OpCode::Mul,
                OpCode::Add,
                OpCode::Constant(3),
                OpCode::Sub,
                OpCode::Return
            ],
            vec![1; 8],
            vec![1.0, 2.0, 3.0, 4.0]
        )
    );
}

#[test]
fn grouping_overrides_precedence() {
    assert_eq!(
        compiled("(1 + 2) * 3").0,
        vec![
            OpCode::Constant(0),
            OpCode::Constant(1),
            OpCode::Add,
            OpCode::Constant(2),
            OpCode::Mul,
            OpCode::Return
        ]
    );
}

#[test]
fn comparison_binds_tighter_than_equality() {
    assert_eq!(
        compiled("1 < 2 == 3 > 4").0,
        vec![
            OpCode::Constant(0),
            OpCode::Constant(1),
            OpCode::Less,
            OpCode::Constant(2),
            OpCode::Constant(3),
            OpCode::Greater,
            OpCode::Equal,
            OpCode::Return
        ]
    );
}

#[test]
fn instructions_carry_the_line_of_the_token_before_them() {
    assert_eq!(
        compiled("1 +\n2 *\n\n3"),
        (
            vec![
                OpCode::Constant(0),
                OpCode::Constant(1),
                OpCode::Constant(2),
                OpCode::Mul,
                OpCode::Add,
                OpCode::Return
            ],
            vec![1, 2, 4, 4, 4, 4],
            vec![1.0, 2.0, 3.0]
        )
    );
}

#[test]
fn equal_literals_get_their_own_constants() {
    assert_eq!(compiled("1 + 1").2, vec![1.0, 1.0]);
}

#[test]
fn compile_errors_by_message() {
    assert_eq!(messages(""), vec!["Expected expression"]);
    assert_eq!(messages("+"), vec!["Expected expression"]);
    assert_eq!(messages("1 1"), vec!["Expected end of expression"]);
    assert_eq!(messages("(1"), vec!["Expected ')' after expression"]);
    assert_eq!(messages("1 + \"abc"), vec!["Unterminated string"]);
    assert_eq!(messages("1 + ?"), vec!["Unexpected character"]);
    assert_eq!(messages("\"text\""), vec!["Expected expression"]);
    assert_eq!(messages("name"), vec!["Expected expression"]);
    assert_eq!(messages("1 = 2"), vec!["Expected end of expression"]);
}

#[test]
fn number_literal_with_a_value_becomes_a_constant() {
    let mut compiler = Compiler::new("1");
    assert!(compiler.compile().is_ok());
    let mut compiler = Compiler::new("");
    assert!(compiler.compile().is_err());
    assert_eq!(compiler.diagnostics().len(), 1);
}

#[test]
fn a_compiler_reports_each_error_once_in_panic_mode() {
    let mut compiler = Compiler::new("@ @ (1 + ) ) )");
    assert!(compiler.compile().is_err());
    let list = compiler.into_diagnostics();
    assert_eq!(list.len(), 1);
    assert_eq!(list[0].message, "Unexpected character");
}

#[test]
fn literal_constant_is_the_number_that_was_read() {
    match literal_constant(Some(2.5f64.to_bits())) {
        Ok(Value::Number(bits)) => assert_eq!(f64::from_bits(bits), 2.5),
        other => panic!("expected a number, got {:?}", other),
    }
    match literal_constant(read_number("12.75")) {
        Ok(Value::Number(bits)) => assert_eq!(f64::from_bits(bits), 12.75),
        other => panic!("expected a number, got {:?}", other),
    }
}

#[test]
fn literal_constant_without_a_value_is_an_error() {
    assert_eq!(literal_constant(None).err(), Some("Invalid number"));
    assert_eq!(literal_constant(read_number("1.2.3")).err(), Some("Invalid number"));
}
