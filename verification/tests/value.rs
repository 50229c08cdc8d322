use m2_rslox::value::Value;
use std::cmp::Ordering;

fn number(x: f64) -> Value {
    Value::Number(x.to_bits())
}

#[test]
fn nil_and_false_are_falsey() {
    assert!(Value::Nil.is_falsey());
    assert!(Value::Bool(false).is_falsey());
    assert!(!Value::Bool(true).is_falsey());
    assert!(!number(0.0).is_falsey());
    assert!(!number(1.0).is_falsey());
    assert!(!number(f64::NAN).is_falsey());
}

#[test]
fn not_gives_falsiness() {
    assert!(matches!(!Value::Nil, Value::Bool(true)));
    assert!(matches!(!Value::Bool(false), Value::Bool(true)));
    assert!(matches!(!Value::Bool(true), Value::Bool(false)));
    assert!(matches!(!number(0.0), Value::Bool(false)));
    assert!(matches!(!!Value::Nil, Value::Bool(false)));
    assert!(matches!(!!number(0.0), Value::Bool(true)));
}

#[test]
fn negation_of_a_number() {
    assert!(matches!(-number(1.5), Value::Number(bits) if bits == (-1.5f64).to_bits()));
    assert!(matches!(-number(0.0), Value::Number(bits) if bits == (-0.0f64).to_bits()));
}

#[test]
fn arithmetic_on_numbers() {
    assert!(matches!(number(1.0) + number(2.0), Value::Number(bits) if bits == 3.0f64.to_bits()));
    assert!(matches!(number(1.0) - number(2.0), Value::Number(bits) if bits == (-1.0f64).to_bits()));
    assert!(matches!(number(3.0) * number(2.0), Value::Number(bits) if bits == 6.0f64.to_bits()));
    assert!(matches!(number(3.0) / number(2.0), Value::Number(bits) if bits == 1.5f64.to_bits()));
    assert!(matches!(number(0.1) + number(0.2), Value::Number(bits) if bits == (0.1f64 + 0.2).to_bits()));
}

#[test]
fn equality_of_values() {
    assert!(Value::Nil == Value::Nil);
    assert!(Value::Bool(true) == Value::Bool(true));
    assert!(Value::Bool(true) != Value::Bool(false));
    assert!(number(1.0) == number(1.0));
    assert!(number(1.0) != number(2.0));
    assert!(number(0.0) == number(-0.0));
    assert!(number(f64::NAN) != number(f64::NAN));
    assert!(Value::Nil != Value::Bool(false));
    assert!(Value::Nil != number(0.0));
    assert!(Value::Bool(false) != number(0.0));
    assert!(Value::Bool(true) != number(1.0));
}

#[test]
fn ordering_of_values() {
    assert_eq!(number(1.0).partial_cmp(&number(2.0)), Some(Ordering::Less));
    assert_eq!(number(2.0).partial_cmp(&number(1.0)), Some(Ordering::Greater));
    assert_eq!(number(2.0).partial_cmp(&number(2.0)), Some(Ordering::Equal));
    assert_eq!(number(0.0).partial_cmp(&number(-0.0)), Some(Ordering::Equal));
    assert_eq!(number(f64::NAN).partial_cmp(&number(1.0)), None);
    assert_eq!(Value::Nil.partial_cmp(&Value::Nil), None);
    assert_eq!(Value::Bool(true).partial_cmp(&number(1.0)), None);
    assert!(number(-1.0) < number(1.0));
    assert!(number(1.0) > number(-1.0));
    assert!(!(number(f64::NAN) < number(1.0)));
    assert!(!(number(f64::NAN) > number(1.0)));
}
