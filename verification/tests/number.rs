use m2_rslox::compiler::read_number;
use m2_rslox::number::{equal, greater, less, nan, negate};
use m2_rslox::value::Value;

fn samples() -> Vec<f64> {
    vec![
        0.0,
        -0.0,
        1.0,
        -1.0,
        0.5,
        -0.5,
        2.0,
        3.0,
        0.1,
        0.2,
        1.0e-300,
        -1.0e-300,
        1.0e300,
        -1.0e300,
        5e-324,
        -5e-324,
        2.2250738585072014e-308,
        f64::MAX,
        f64::MIN,
        f64::EPSILON,
        f64::INFINITY,
        f64::NEG_INFINITY,
        f64::NAN,
        -f64::NAN,
        123456789.125,
        9007199254740993.0,
    ]
}

fn same_number(bits: u64, expected: f64) -> bool {
    let got = f64::from_bits(bits);
    if expected.is_nan() {
        got.is_nan()
    } else {
        got.to_bits() == expected.to_bits()
    }
}

fn bits_of(value: Value) -> u64 {
    match value {
        Value::Number(bits) => bits,
        other => panic!("expected a number, got {:?}", other),
    }
}

#[test]
fn nan_is_told_from_the_bits() {
    for x in samples() {
        assert_eq!(nan(x.to_bits()), x.is_nan(), "{}", x);
    }
    assert!(nan(0x7FF0_0000_0000_0001));
    assert!(nan(0xFFF8_0000_0000_0000));
    assert!(!nan(0x7FF0_0000_0000_0000));
    assert!(!nan(0xFFF0_0000_0000_0000));
}

#[test]
fn negate_flips_the_sign() {
    for x in samples() {
        assert_eq!(negate(x.to_bits()), (-x).to_bits(), "{}", x);
    }
    assert_eq!(negate(0), 0x8000_0000_0000_0000);
    assert_eq!(negate(0x8000_0000_0000_0000), 0);
}

#[test]
fn equal_is_ieee_equality() {
    for x in samples() {
        for y in samples() {
            assert_eq!(equal(x.to_bits(), y.to_bits()), x == y, "{} == {}", x, y);
        }
    }
}

#[test]
fn less_and_greater_are_ieee_comparisons() {
    for x in samples() {
        for y in samples() {
            assert_eq!(less(x.to_bits(), y.to_bits()), x < y, "{} < {}", x, y);
            assert_eq!(greater(x.to_bits(), y.to_bits()), x > y, "{} > {}", x, y);
        }
    }
}

#[test]
fn sum_is_the_double_precision_sum() {
    for x in samples() {
        for y in samples() {
            let got = bits_of(Value::Number(x.to_bits()) + Value::Number(y.to_bits()));
            assert!(same_number(got, x + y), "{} + {}", x, y);
        }
    }
    assert_eq!(bits_of(Value::Number(1.5f64.to_bits()) + Value::Number(2.25f64.to_bits())), 3.75f64.to_bits());
}

#[test]
fn difference_is_the_double_precision_difference() {
    for x in samples() {
        for y in samples() {
            let got = bits_of(Value::Number(x.to_bits()) - Value::Number(y.to_bits()));
            assert!(same_number(got, x - y), "{} - {}", x, y);
        }
    }
    assert_eq!(bits_of(Value::Number(1.5f64.to_bits()) - Value::Number(2.25f64.to_bits())), (-0.75f64).to_bits());
}

#[test]
fn product_is_the_double_precision_product() {
    for x in samples() {
        for y in samples() {
            let got = bits_of(Value::Number(x.to_bits()) * Value::Number(y.to_bits()));
            assert!(same_number(got, x * y), "{} * {}", x, y);
        }
    }
    assert_eq!(bits_of(Value::Number(1.5f64.to_bits()) * Value::Number(2.5f64.to_bits())), 3.75f64.to_bits());
}

#[test]
fn quotient_is_the_double_precision_quotient() {
    for x in samples() {
        for y in samples() {
            let got = bits_of(Value::Number(x.to_bits()) / Value::Number(y.to_bits()));
            assert!(same_number(got, x / y), "{} / {}", x, y);
        }
    }
    assert_eq!(bits_of(Value::Number(1.0f64.to_bits()) / Value::Number(3.0f64.to_bits())), (1.0f64 / 3.0).to_bits());
}

#[test]
fn read_number_reads_decimal_literals() {
    let literals = [
        "0",
        "1",
        "007",
        "42",
        "3.14159",
        "0.1",
        "0.2",
        "0.30000000000000004",
        "123456789012345678901234567890",
        "1.7976931348623157",
        "179769313486231570000000000000000000000",
        "0.000000000000000000000000000000000000001",
        "9007199254740993",
        "9007199254740992.5",
        "4.9406564584124654",
        "2.2250738585072011",
        "0.5",
        "100.0",
        "1.0000000000000002220446049250313",
    ];
    for text in literals {
        let expected: f64 = text.parse().unwrap();
        assert_eq!(read_number(text), Some(expected.to_bits()), "{}", text);
    }
}

#[test]
fn read_number_reads_a_literal_too_large_for_a_double_as_infinity() {
    let mut text = String::from("1");
    for _ in 0..400 {
        text.push('0');
    }
    assert_eq!(read_number(&text), Some(f64::INFINITY.to_bits()));
}

#[test]
fn read_number_reads_a_literal_too_small_for_a_double_as_zero() {
    let mut text = String::from("0.");
    for _ in 0..400 {
        text.push('0');
    }
    text.push('1');
    assert_eq!(read_number(&text), Some(0.0f64.to_bits()));
}

#[test]
fn read_number_rejects_what_is_no_number() {
    assert_eq!(read_number(""), None);
    assert_eq!(read_number("abc"), None);
    assert_eq!(read_number("1.2.3"), None);
    assert_eq!(read_number("."), None);
}

#[test]
fn read_number_reads_texts_up_to_the_longest_and_no_longer() {
    let mut text = String::from("1");
    while text.len() < 0x0100_0000 {
        text.push('0');
    }
    assert_eq!(read_number(&text), Some(f64::INFINITY.to_bits()));
    text.push('0');
    assert_eq!(read_number(&text), None);
}
