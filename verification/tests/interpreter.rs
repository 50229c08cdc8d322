use m2_rslox::value::Value;
use m2_rslox::vm::{InterpretResult, VM};

fn number(source: &str) -> f64 {
    let mut vm = VM::new();
    match vm.interpret(source) {
        Ok(Some(Value::Number(bits))) => f64::from_bits(bits),
        other => panic!("expected a number, got {:?}", other),
    }
}

fn boolean(source: &str) -> bool {
    let mut vm = VM::new();
    match vm.interpret(source) {
        Ok(Some(Value::Bool(b))) => b,
        other => panic!("expected a boolean, got {:?}", other),
    }
}

fn compile_errors(source: &str) -> Vec<(usize, Option<String>, String)> {
    let mut vm = VM::new();
    match vm.interpret(source) {
        Err(InterpretResult::CompileError(list)) => list
            .iter()
            .map(|d| (d.line, d.location.map(|s| s.to_string()), d.message.to_string()))
            .collect(),
        other => panic!("expected a compile error, got {:?}", other),
    }
}

fn runtime_error(source: &str) -> (String, usize) {
    let mut vm = VM::new();
    match vm.interpret(source) {
        Err(InterpretResult::RuntimeError(fault)) => (fault.message.to_string(), fault.line),
        other => panic!("expected a runtime error, got {:?}", other),
    }
}

#[test]
fn one_plus_two_is_three() {
    assert_eq!(number("1 + 2"), 3.0);
}

#[test]
fn grouping_and_negation() {
    assert_eq!(number("(-1 + 2) * 3 - -4"), 7.0);
}

#[test]
fn comparison_equality_and_not() {
    assert_eq!(boolean("!(5 - 4 > 3 * 2 == !nil)"), true);
}

#[test]
fn negating_a_boolean_is_a_runtime_error() {
    assert_eq!(runtime_error("-true"), ("Operand must be a number".to_string(), 1));
}

#[test]
fn missing_operand_is_reported_at_end() {
    assert_eq!(
        compile_errors("1 +"),
        vec![(1, None, "Expected expression".to_string())]
    );
}

#[test]
fn unterminated_string_does_not_compile() {
    let errors = compile_errors("\"abc\n");
    assert_eq!(errors.len(), 1);
    assert_eq!(errors[0].2, "Unterminated string");
    assert_eq!(errors[0].1, None);
    assert_eq!(errors[0].0, 1);
}

#[test]
fn empty_source_does_not_compile() {
    assert_eq!(
        compile_errors(""),
        vec![(1, None, "Expected expression".to_string())]
    );
}

#[test]
fn whitespace_and_comments_behave_like_empty_source() {
    assert_eq!(
        compile_errors("  \t // nothing here"),
        vec![(1, None, "Expected expression".to_string())]
    );
    assert_eq!(
        compile_errors(" \n// a\n\n  // b\n"),
        vec![(5, None, "Expected expression".to_string())]
    );
}

#[test]
fn trailing_token_is_reported_at_that_token() {
    assert_eq!(
        compile_errors("1 2"),
        vec![(1, Some("2".to_string()), "Expected end of expression".to_string())]
    );
}

#[test]
fn missing_right_paren() {
    assert_eq!(
        compile_errors("(1 + 2"),
        vec![(1, None, "Expected ')' after expression".to_string())]
    );
}

#[test]
fn panic_mode_suppresses_later_errors() {
    assert_eq!(
        compile_errors("(1 + ) 3 4"),
        vec![(1, Some(")".to_string()), "Expected expression".to_string())]
    );
}

#[test]
fn unexpected_character_is_reported_and_skipped() {
    assert_eq!(
        compile_errors("1 + @ 2"),
        vec![(1, None, "Unexpected character".to_string())]
    );
    assert_eq!(
        compile_errors("\u{00e9}"),
        vec![(1, None, "Unexpected character".to_string())]
    );
}

#[test]
fn precedence_and_left_associativity() {
    assert_eq!(number("1 + 2 * 3"), 7.0);
    assert_eq!(number("2 * 3 + 1"), 7.0);
    assert_eq!(number("10 - 4 - 3"), 3.0);
    assert_eq!(number("100 / 10 / 5"), 2.0);
    assert_eq!(number("1 - 2 * 3 - 4 / 8"), -5.5);
    assert_eq!(number("0.1 + 0.2"), 0.1 + 0.2);
    assert_eq!(number("1 / 3"), 1.0 / 3.0);
    assert_eq!(number("1.5 * 1.5 - 0.25"), 2.0);
}

#[test]
fn arithmetic_on_literals_matches_double_precision() {
    assert_eq!(number("0.1 * 3"), 0.1 * 3.0);
    assert_eq!(number("123456789 * 987654321"), 123456789.0 * 987654321.0);
    assert_eq!(number("1 / 0"), f64::INFINITY);
    assert_eq!(number("-1 / 0"), f64::NEG_INFINITY);
    assert!(number("0 / 0").is_nan());
    assert_eq!(number("3.14159"), 3.14159);
    assert_eq!(number("4.9406564584124654"), 4.9406564584124654);
    assert_eq!(number("179769313486231570000"), 179769313486231570000.0);
}

#[test]
fn double_negation_is_truthiness() {
    assert_eq!(boolean("!!nil"), false);
    assert_eq!(boolean("!!false"), false);
    assert_eq!(boolean("!!true"), true);
    assert_eq!(boolean("!!0"), true);
    assert_eq!(boolean("!!1.5"), true);
}

#[test]
fn not_of_literals() {
    assert_eq!(boolean("!nil"), true);
    assert_eq!(boolean("!false"), true);
    assert_eq!(boolean("!true"), false);
    assert_eq!(boolean("!0"), false);
}

#[test]
fn equality_across_kinds() {
    assert_eq!(boolean("1 == 1"), true);
    assert_eq!(boolean("1 == 2"), false);
    assert_eq!(boolean("nil == nil"), true);
    assert_eq!(boolean("nil == false"), false);
    assert_eq!(boolean("true == 1"), false);
    assert_eq!(boolean("0 == false"), false);
    assert_eq!(boolean("0 == -0"), true);
    assert_eq!(boolean("0 / 0 == 0 / 0"), false);
    assert_eq!(boolean("0 / 0 != 0 / 0"), true);
}

#[test]
fn not_equal_is_the_negation_of_equal() {
    assert_eq!(boolean("1 != 2"), boolean("!(1 == 2)"));
    assert_eq!(boolean("1 != 1"), boolean("!(1 == 1)"));
    assert_eq!(boolean("nil != false"), boolean("!(nil == false)"));
    assert_eq!(boolean("true != true"), boolean("!(true == true)"));
}

#[test]
fn comparisons_of_numbers() {
    assert_eq!(boolean("1 < 2"), true);
    assert_eq!(boolean("2 < 1"), false);
    assert_eq!(boolean("1 <= 1"), true);
    assert_eq!(boolean("1 >= 2"), false);
    assert_eq!(boolean("2 >= 2"), true);
    assert_eq!(boolean("3 > 2"), true);
    assert_eq!(boolean("-1 < 0"), true);
    assert_eq!(boolean("-2 < -1"), true);
    assert_eq!(boolean("-1 > -2"), true);
    assert_eq!(boolean("0 < -0"), false);
    assert_eq!(boolean("1 >= 2"), boolean("!(1 < 2)"));
    assert_eq!(boolean("2 >= 1"), boolean("!(2 < 1)"));
}

#[test]
fn comparing_other_values_is_a_runtime_error() {
    assert_eq!(runtime_error("nil >= 1"), ("Operands must be numbers".to_string(), 1));
    assert_eq!(runtime_error("!(nil < 1)"), ("Operands must be numbers".to_string(), 1));
    assert_eq!(runtime_error("true > false"), ("Operands must be numbers".to_string(), 1));
    assert_eq!(runtime_error("1 + nil"), ("Operands must be numbers".to_string(), 1));
    assert_eq!(runtime_error("1 +\n nil *\n 2"), ("Operands must be numbers".to_string(), 3));
}

#[test]
fn runtime_error_line_is_the_line_of_the_operator_operand() {
    assert_eq!(runtime_error("\n\n-nil"), ("Operand must be a number".to_string(), 3));
}

#[test]
fn the_machine_can_be_used_again() {
    let mut vm = VM::new();
    assert!(matches!(vm.interpret("1 + nil"), Err(InterpretResult::RuntimeError(_))));
    assert!(matches!(vm.interpret("1 +"), Err(InterpretResult::CompileError(_))));
    match vm.interpret("2 * 3") {
        Ok(Some(Value::Number(bits))) => assert_eq!(f64::from_bits(bits), 6.0),
        other => panic!("expected a number, got {:?}", other),
    }
}

#[test]
fn too_many_constants_do_not_compile() {
    let mut source = String::from("0");
    for i in 1..256 {
        source.push_str(&format!(" + {}", i));
    }
    assert_eq!(number(&source), (255.0 * 256.0) / 2.0);
    source.push_str(" + 256");
    let errors = compile_errors(&source);
    assert_eq!(
        errors,
        vec![(1, Some("256".to_string()), "Too many constants in one chunk".to_string())]
    );
}
