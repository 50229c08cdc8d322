use m2_rslox::scanner::{Scanner, Token, TokenType};

fn scan_all(source: &str) -> Vec<Result<(TokenType, String, usize), String>> {
    let mut scanner = Scanner::new(source);
    let mut found = Vec::new();
    loop {
        match scanner.scan_token() {
            Ok(Some(token)) => found.push(Ok((token.token_type, token.span.to_string(), token.line))),
            Ok(None) => return found,
            Err(message) => found.push(Err(message.to_string())),
        }
    }
}

fn kinds(source: &str) -> Vec<TokenType> {
    scan_all(source)
        .into_iter()
        .map(|item| match item {
            Ok((kind, _, _)) => kind,
            Err(message) => panic!("unexpected scan error: {}", message),
        })
        .collect()
}

#[test]
fn token_new_keeps_its_parts() {
    let token = Token::new(TokenType::Identifier, "abc", 7);
    assert_eq!(token.token_type, TokenType::Identifier);
    assert_eq!(token.span, "abc");
    assert_eq!(token.line, 7);
}

#[test]
fn empty_source_is_at_its_end() {
    let mut scanner = Scanner::new("");
    assert!(matches!(scanner.scan_token(), Ok(None)));
    assert!(matches!(scanner.scan_token(), Ok(None)));
    assert_eq!(scanner.line(), 1);
}

#[test]
fn single_character_punctuation() {
    assert_eq!(
        kinds("(){};,.-+/*!=<>"),
        vec![
            TokenType::LeftParen,
            TokenType::RightParen,
            TokenType::LeftBrace,
            TokenType::RightBrace,
            TokenType::Semicolon,
            TokenType::Comma,
            TokenType::Dot,
            TokenType::Minus,
            TokenType::Plus,
            TokenType::Slash,
            TokenType::Star,
            TokenType::BangEqual,
            TokenType::Less,
            TokenType::Greater,
        ]
    );
    assert_eq!(
        kinds("! = < >"),
        vec![TokenType::Bang, TokenType::Equal, TokenType::Less, TokenType::Greater]
    );
}

#[test]
fn two_character_operators_win_over_their_prefix() {
    assert_eq!(
        scan_all("!= == <= >= ==="),
        vec![
            Ok((TokenType::BangEqual, "!=".to_string(), 1)),
            Ok((TokenType::EqualEqual, "==".to_string(), 1)),
            Ok((TokenType::LessEqual, "<=".to_string(), 1)),
            Ok((TokenType::GreaterEqual, ">=".to_string(), 1)),
            Ok((TokenType::EqualEqual, "==".to_string(), 1)),
            Ok((TokenType::Equal, "=".to_string(), 1)),
        ]
    );
}

#[test]
fn reserved_words_and_identifiers() {
    assert_eq!(
        kinds("and class else false for fun if nil or print return super this true var while"),
        vec![
            TokenType::And,
            TokenType::Class,
            TokenType::Else,
            TokenType::False,
            TokenType::For,
            TokenType::Fun,
            TokenType::If,
            TokenType::Nil,
            TokenType::Or,
            TokenType::Print,
            TokenType::Return,
            TokenType::Super,
            TokenType::This,
            TokenType::True,
            TokenType::Var,
            TokenType::While,
        ]
    );
    assert_eq!(
        scan_all("andy _and fo f t nill True x1_y2 classy"),
        vec![
            Ok((TokenType::Identifier, "andy".to_string(), 1)),
            Ok((TokenType::Identifier, "_and".to_string(), 1)),
            Ok((TokenType::Identifier, "fo".to_string(), 1)),
            Ok((TokenType::Identifier, "f".to_string(), 1)),
            Ok((TokenType::Identifier, "t".to_string(), 1)),
            Ok((TokenType::Identifier, "nill".to_string(), 1)),
            Ok((TokenType::Identifier, "True".to_string(), 1)),
            Ok((TokenType::Identifier, "x1_y2".to_string(), 1)),
            Ok((TokenType::Identifier, "classy".to_string(), 1)),
        ]
    );
}

#[test]
fn identifier_at_the_end_of_the_source() {
    assert_eq!(scan_all("abc"), vec![Ok((TokenType::Identifier, "abc".to_string(), 1))]);
    assert_eq!(scan_all("nil"), vec![Ok((TokenType::Nil, "nil".to_string(), 1))]);
}

#[test]
fn number_literals() {
    assert_eq!(
        scan_all("12 3.25 7. .5 1.2.3 9"),
        vec![
            Ok((TokenType::Number, "12".to_string(), 1)),
            Ok((TokenType::Number, "3.25".to_string(), 1)),
            Ok((TokenType::Number, "7".to_string(), 1)),
            Ok((TokenType::Dot, ".".to_string(), 1)),
            Ok((TokenType::Dot, ".".to_string(), 1)),
            Ok((TokenType::Number, "5".to_string(), 1)),
            Ok((TokenType::Number, "1.2".to_string(), 1)),
            Ok((TokenType::Dot, ".".to_string(), 1)),
            Ok((TokenType::Number, "3".to_string(), 1)),
            Ok((TokenType::Number, "9".to_string(), 1)),
        ]
    );
    assert_eq!(
        scan_all("1.x"),
        vec![
            Ok((TokenType::Number, "1".to_string(), 1)),
            Ok((TokenType::Dot, ".".to_string(), 1)),
            Ok((TokenType::Identifier, "x".to_string(), 1)),
        ]
    );
}

#[test]
fn string_literals_keep_their_quotes() {
    assert_eq!(
        scan_all("\"abc\" \"\" \"a b\""),
        vec![
            Ok((TokenType::String, "\"abc\"".to_string(), 1)),
            Ok((TokenType::String, "\"\"".to_string(), 1)),
            Ok((TokenType::String, "\"a b\"".to_string(), 1)),
        ]
    );
}

#[test]
fn string_literal_over_several_lines_starts_on_its_first_line() {
    let mut scanner = Scanner::new("\n\"a\nb\n\" x");
    let token = scanner.scan_token().unwrap().unwrap();
    assert_eq!(token.token_type, TokenType::String);
    assert_eq!(token.span, "\"a\nb\n\"");
    assert_eq!(token.line, 2);
    assert_eq!(scanner.line(), 4);
    let token = scanner.scan_token().unwrap().unwrap();
    assert_eq!(token.token_type, TokenType::Identifier);
    assert_eq!(token.line, 4);
}

#[test]
fn string_literal_may_hold_any_characters() {
    assert_eq!(
        scan_all("\"h\u{00e9}llo \u{4e16}\u{754c} \u{1f600}\" 1"),
        vec![
            Ok((TokenType::String, "\"h\u{00e9}llo \u{4e16}\u{754c} \u{1f600}\"".to_string(), 1)),
            Ok((TokenType::Number, "1".to_string(), 1)),
        ]
    );
}

#[test]
fn unterminated_string_skips_the_quote_and_leaves_the_line_counter() {
    let mut scanner = Scanner::new("\"abc\nd\n");
    assert_eq!(scanner.scan_token().err(), Some("Unterminated string"));
    assert_eq!(scanner.line(), 1);
    let token = scanner.scan_token().unwrap().unwrap();
    assert_eq!(token.token_type, TokenType::Identifier);
    assert_eq!(token.span, "abc");
    assert_eq!(token.line, 1);
    let token = scanner.scan_token().unwrap().unwrap();
    assert_eq!(token.span, "d");
    assert_eq!(token.line, 2);
    assert!(matches!(scanner.scan_token(), Ok(None)));
    assert_eq!(scanner.line(), 3);
}

#[test]
fn a_token_behind_an_unterminated_string_is_on_its_own_line() {
    let mut scanner = Scanner::new("\"\n1");
    assert_eq!(scanner.scan_token().err(), Some("Unterminated string"));
    let token = scanner.scan_token().unwrap().unwrap();
    assert_eq!(token.token_type, TokenType::Number);
    assert_eq!(token.span, "1");
    assert_eq!(token.line, 2);
}

#[test]
fn the_line_of_a_token_is_one_more_than_the_line_feeds_before_it() {
    let source = "a // x\n\"s\ns\" b\n\n@ c \"\nd\n // y\n e";
    let mut scanner = Scanner::new(source);
    loop {
        match scanner.scan_token() {
            Ok(Some(token)) => {
                let start = token.span.as_ptr() as usize - source.as_ptr() as usize;
                let before = source[..start].bytes().filter(|b| *b == b'\n').count();
                assert_eq!(token.line, 1 + before, "{}", token.span);
            }
            Ok(None) => break,
            Err(_) => {}
        }
    }
    assert_eq!(scanner.line(), 1 + source.bytes().filter(|b| *b == b'\n').count());
}

#[test]
fn unexpected_character_advances_one_code_point() {
    assert_eq!(
        scan_all("@1 #\u{00e9}2\u{4e16}3\u{1f600}4 $"),
        vec![
            Err("Unexpected character".to_string()),
            Ok((TokenType::Number, "1".to_string(), 1)),
            Err("Unexpected character".to_string()),
            Err("Unexpected character".to_string()),
            Ok((TokenType::Number, "2".to_string(), 1)),
            Err("Unexpected character".to_string()),
            Ok((TokenType::Number, "3".to_string(), 1)),
            Err("Unexpected character".to_string()),
            Ok((TokenType::Number, "4".to_string(), 1)),
            Err("Unexpected character".to_string()),
        ]
    );
}

#[test]
fn whitespace_is_skipped_and_lines_are_counted() {
    assert_eq!(
        scan_all(" \t\r\n a \n\n\x0c b"),
        vec![
            Ok((TokenType::Identifier, "a".to_string(), 2)),
            Ok((TokenType::Identifier, "b".to_string(), 4)),
        ]
    );
}

#[test]
fn vertical_tab_is_not_whitespace() {
    assert_eq!(scan_all("\x0b"), vec![Err("Unexpected character".to_string())]);
}

#[test]
fn comments_run_to_the_end_of_the_line() {
    assert_eq!(
        scan_all("1 // one \u{00e9} \" ( \n// two\n2 / 3 // three"),
        vec![
            Ok((TokenType::Number, "1".to_string(), 1)),
            Ok((TokenType::Number, "2".to_string(), 3)),
            Ok((TokenType::Slash, "/".to_string(), 3)),
            Ok((TokenType::Number, "3".to_string(), 3)),
        ]
    );
    assert_eq!(scan_all("//"), vec![]);
    assert_eq!(scan_all("/"), vec![Ok((TokenType::Slash, "/".to_string(), 1))]);
    assert_eq!(
        scan_all("/ /"),
        vec![
            Ok((TokenType::Slash, "/".to_string(), 1)),
            Ok((TokenType::Slash, "/".to_string(), 1)),
        ]
    );
}

#[test]
fn the_line_counter_follows_the_scanner() {
    let mut scanner = Scanner::new("a\nb\n\n");
    assert_eq!(scanner.line(), 1);
    scanner.scan_token().unwrap();
    assert_eq!(scanner.line(), 1);
    scanner.scan_token().unwrap();
    assert_eq!(scanner.line(), 2);
    assert!(matches!(scanner.scan_token(), Ok(None)));
    assert_eq!(scanner.line(), 4);
}
