//! The values of the language: `nil`, booleans and double-precision numbers.

use vstd::prelude::*;
use vstd::std_specs::cmp::{PartialEqSpecImpl, PartialOrdSpecImpl};
use vstd::std_specs::ops::{AddSpecImpl, DivSpecImpl, MulSpecImpl, NegSpecImpl, NotSpecImpl, SubSpecImpl};
use core::cmp::Ordering;
use crate::number::{
    add_bits, difference_bits, divide_bits, equal, less, multiply_bits, negate, negated, number_eq,
    number_lt, product_bits, quotient_bits, subtract_bits, sum_bits,
};

verus! {

/// A value of the language. A number is held as its IEEE-754 binary64 bit
/// pattern.
#[derive(Clone, Copy, Debug)]
pub enum Value {
    Nil,
    Bool(bool),
    Number(u64),
}

impl Value {
    /// `nil` and `false` are falsey; every other value is truthy.
    pub open spec fn falsey(self) -> bool {
        self == Value::Nil || self == Value::Bool(false)
    }

    /// Equality of the language: values of different kinds are never equal,
    /// and numbers are equal as IEEE-754 has it, so a NaN equals nothing.
    pub open spec fn same(self, other: Value) -> bool {
        match (self, other) {
            (Value::Nil, Value::Nil) => true,
            (Value::Bool(a), Value::Bool(b)) => a == b,
            (Value::Number(a), Value::Number(b)) => number_eq(a, b),
            _ => false,
        }
    }

    /// How two values are ordered: only two numbers of which neither is a NaN
    /// are.
    pub open spec fn ordered(self, other: Value) -> Option<Ordering> {
        match (self, other) {
            (Value::Number(a), Value::Number(b)) => {
                if number_lt(a, b) {
                    Some(Ordering::Less)
                } else if number_lt(b, a) {
                    Some(Ordering::Greater)
                } else if number_eq(a, b) {
                    Some(Ordering::Equal)
                } else {
                    None
                }
            },
            _ => None,
        }
    }

    pub fn is_falsey(&self) -> (r: bool)
        ensures
            r == self.falsey(),
    {
        match self {
            Value::Nil => true,
            Value::Bool(b) => !*b,
            Value::Number(_) => false,
        }
    }
}

impl PartialEq for Value {
    fn eq(&self, other: &Value) -> (r: bool) {
        match (self, other) {
            (Value::Nil, Value::Nil) => true,
            (Value::Bool(a), Value::Bool(b)) => *a == *b,
            (Value::Number(a), Value::Number(b)) => equal(*a, *b),
            _ => false,
        }
    }
}

impl PartialEqSpecImpl for Value {
    open spec fn obeys_eq_spec() -> bool {
        true
    }

    open spec fn eq_spec(&self, other: &Value) -> bool {
        self.same(*other)
    }
}

impl PartialOrd for Value {
    fn partial_cmp(&self, other: &Value) -> (r: Option<Ordering>) {
        match (self, other) {
            (Value::Number(a), Value::Number(b)) => {
                if less(*a, *b) {
                    Some(Ordering::Less)
                } else if less(*b, *a) {
                    Some(Ordering::Greater)
                } else if equal(*a, *b) {
                    Some(Ordering::Equal)
                } else {
                    None
                }
            },
            _ => None,
        }
    }
}

impl PartialOrdSpecImpl for Value {
    open spec fn obeys_partial_cmp_spec() -> bool {
        true
    }

    open spec fn partial_cmp_spec(&self, other: &Value) -> Option<Ordering> {
        self.ordered(*other)
    }
}

impl core::ops::Neg for Value {
    type Output = Value;

    fn neg(self) -> (r: Value) {
        match self {
            Value::Number(bits) => Value::Number(negate(bits)),
            _ => vstd::pervasive::unreached(),
        }
    }
}

impl NegSpecImpl for Value {
    open spec fn obeys_neg_spec() -> bool {
        true
    }

    /// Only a number can be negated.
    open spec fn neg_req(self) -> bool {
        self is Number
    }

    open spec fn neg_spec(self) -> Value {
        Value::Number(negated(self->Number_0))
    }
}

impl core::ops::Not for Value {
    type Output = Value;

    fn not(self) -> (r: Value) {
        Value::Bool(self.is_falsey())
    }
}

impl NotSpecImpl for Value {
    open spec fn obeys_not_spec() -> bool {
        true
    }

    open spec fn not_req(self) -> bool {
        true
    }

    open spec fn not_spec(self) -> Value {
        Value::Bool(self.falsey())
    }
}

impl core::ops::Add for Value {
    type Output = Value;

    fn add(self, rhs: Value) -> (r: Value) {
        match (self, rhs) {
            (Value::Number(a), Value::Number(b)) => Value::Number(add_bits(a, b)),
            _ => vstd::pervasive::unreached(),
        }
    }
}

impl AddSpecImpl for Value {
    open spec fn obeys_add_spec() -> bool {
        true
    }

    /// Only two numbers can be added.
    open spec fn add_req(self, rhs: Value) -> bool {
        self is Number && rhs is Number
    }

    open spec fn add_spec(self, rhs: Value) -> Value {
        Value::Number(sum_bits(self->Number_0, rhs->Number_0))
    }
}

impl core::ops::Sub for Value {
    type Output = Value;

    fn sub(self, rhs: Value) -> (r: Value) {
        match (self, rhs) {
            (Value::Number(a), Value::Number(b)) => Value::Number(subtract_bits(a, b)),
            _ => vstd::pervasive::unreached(),
        }
    }
}

impl SubSpecImpl for Value {
    open spec fn obeys_sub_spec() -> bool {
        true
    }

    /// Only two numbers can be subtracted.
    open spec fn sub_req(self, rhs: Value) -> bool {
        self is Number && rhs is Number
    }

    open spec fn sub_spec(self, rhs: Value) -> Value {
        Value::Number(difference_bits(self->Number_0, rhs->Number_0))
    }
}

impl core::ops::Mul for Value {
    type Output = Value;

    fn mul(self, rhs: Value) -> (r: Value) {
        match (self, rhs) {
            (Value::Number(a), Value::Number(b)) => Value::Number(multiply_bits(a, b)),
            _ => vstd::pervasive::unreached(),
        }
    }
}

impl MulSpecImpl for Value {
    open spec fn obeys_mul_spec() -> bool {
        true
    }

    /// Only two numbers can be multiplied.
    open spec fn mul_req(self, rhs: Value) -> bool {
        self is Number && rhs is Number
    }

    open spec fn mul_spec(self, rhs: Value) -> Value {
        Value::Number(product_bits(self->Number_0, rhs->Number_0))
    }
}

impl core::ops::Div for Value {
    type Output = Value;

    fn div(self, rhs: Value) -> (r: Value) {
        match (self, rhs) {
            (Value::Number(a), Value::Number(b)) => Value::Number(divide_bits(a, b)),
            _ => vstd::pervasive::unreached(),
        }
    }
}

impl DivSpecImpl for Value {
    open spec fn obeys_div_spec() -> bool {
        true
    }

    /// Only two numbers can be divided.
    open spec fn div_req(self, rhs: Value) -> bool {
        self is Number && rhs is Number
    }

    open spec fn div_spec(self, rhs: Value) -> Value {
        Value::Number(quotient_bits(self->Number_0, rhs->Number_0))
    }
}

} // verus!
