//! Values: numbers, booleans, nil and handles to heap objects.
//!
//! A number is an IEEE-754 binary64 value, held as its bit pattern: the sign in
//! the top bit, then eleven bits of exponent and fifty-two of fraction.

use crate::heap::{HeapView, ObjectRef};
use vstd::prelude::*;
use vstd::std_specs::cmp::PartialEqSpecImpl;

verus! {

/// The top bit of a number: its sign.
pub const SIGN_BIT: u64 = 0x8000_0000_0000_0000;

/// The magnitude of positive infinity; a larger magnitude is not a number.
pub const INFINITY_BITS: u64 = 0x7ff0_0000_0000_0000;

/// A number without its sign.
pub open spec fn magnitude(bits: u64) -> int {
    bits as int % 0x8000_0000_0000_0000
}

pub open spec fn is_negative(bits: u64) -> bool {
    bits >= 0x8000_0000_0000_0000
}

/// Whether the bits are those of a NaN.
pub open spec fn is_nan(bits: u64) -> bool {
    magnitude(bits) > 0x7ff0_0000_0000_0000
}

/// An integer that orders the numbers other than NaN as their values are
/// ordered: the magnitude, negated under a minus sign. Both zeros give 0.
pub open spec fn order_key(bits: u64) -> int {
    if is_negative(bits) {
        -magnitude(bits)
    } else {
        magnitude(bits)
    }
}

/// Equality of two numbers: false if either is a NaN, and the two zeros are
/// equal.
pub open spec fn number_eq(a: u64, b: u64) -> bool {
    !is_nan(a) && !is_nan(b) && order_key(a) == order_key(b)
}

/// Whether the number `a` is less than `b`: false if either is a NaN.
pub open spec fn number_lt(a: u64, b: u64) -> bool {
    !is_nan(a) && !is_nan(b) && order_key(a) < order_key(b)
}

/// The number with the opposite sign.
pub open spec fn number_neg(bits: u64) -> u64 {
    if is_negative(bits) {
        (bits - 0x8000_0000_0000_0000) as u64
    } else {
        (bits + 0x8000_0000_0000_0000) as u64
    }
}

proof fn lemma_sign_and_magnitude(bits: u64)
    ensures
        (bits & 0x7fff_ffff_ffff_ffff) as int == magnitude(bits),
        (bits & 0x8000_0000_0000_0000 != 0) == is_negative(bits),
        bits ^ 0x8000_0000_0000_0000 == number_neg(bits),
{
    assert(bits & 0x7fff_ffff_ffff_ffff == bits % 0x8000_0000_0000_0000) by (bit_vector);
    assert((bits & 0x8000_0000_0000_0000 != 0) == (bits >= 0x8000_0000_0000_0000))
        by (bit_vector);
    assert(bits >= 0x8000_0000_0000_0000 ==> bits ^ 0x8000_0000_0000_0000 == (bits
        - 0x8000_0000_0000_0000) as u64) by (bit_vector);
    assert(bits < 0x8000_0000_0000_0000 ==> bits ^ 0x8000_0000_0000_0000 == (bits
        + 0x8000_0000_0000_0000) as u64) by (bit_vector);
}

/// Whether two numbers are equal.
pub fn numbers_equal(a: u64, b: u64) -> (equal: bool)
    ensures
        equal == number_eq(a, b),
{
    proof {
        lemma_sign_and_magnitude(a);
        lemma_sign_and_magnitude(b);
    }
    let ma: u64 = a & 0x7fff_ffff_ffff_ffff;
    let mb: u64 = b & 0x7fff_ffff_ffff_ffff;
    if ma > INFINITY_BITS || mb > INFINITY_BITS {
        false
    } else {
        a == b || (ma == 0 && mb == 0)
    }
}

/// Whether the number `a` is less than the number `b`.
pub fn number_less(a: u64, b: u64) -> (less: bool)
    ensures
        less == number_lt(a, b),
{
    proof {
        lemma_sign_and_magnitude(a);
        lemma_sign_and_magnitude(b);
    }
    let ma: u64 = a & 0x7fff_ffff_ffff_ffff;
    let mb: u64 = b & 0x7fff_ffff_ffff_ffff;
    let a_negative = a & SIGN_BIT != 0;
    let b_negative = b & SIGN_BIT != 0;
    if ma > INFINITY_BITS || mb > INFINITY_BITS {
        false
    } else if a_negative && b_negative {
        mb < ma
    } else if a_negative {
        ma != 0 || mb != 0
    } else if b_negative {
        false
    } else {
        ma < mb
    }
}

/// A value of the language.
#[derive(Clone, Copy, Debug)]
pub enum Value {
    /// A number, as the bits of a binary64 value.
    Double(u64),
    Boolean(bool),
    Object(ObjectRef),
    Nil,
}

/// Equality of values: values of one variant are equal when what they hold is
/// equal (numbers as numbers, handles by slot); values of two variants never
/// are.
pub open spec fn value_eq(a: Value, b: Value) -> bool {
    match (a, b) {
        (Value::Boolean(x), Value::Boolean(y)) => x == y,
        (Value::Double(x), Value::Double(y)) => number_eq(x, y),
        (Value::Object(x), Value::Object(y)) => x == y,
        (Value::Nil, Value::Nil) => true,
        _ => false,
    }
}

impl Value {
    /// Whether the value counts as false: `nil` and `false` do, nothing else.
    pub open spec fn falsey(self) -> bool {
        match self {
            Value::Boolean(b) => !b,
            Value::Nil => true,
            _ => false,
        }
    }

    /// Whether the value counts as false.
    pub fn is_falsey(&self) -> (falsey: bool)
        ensures
            falsey == self.falsey(),
    {
        match self {
            Value::Double(_) => false,
            Value::Boolean(val) => !*val,
            Value::Object(_) => false,
            Value::Nil => true,
        }
    }

    /// The negation of a number.
    pub fn neg(self) -> (negated: Value)
        requires
            self is Double,
        ensures
            negated == Value::Double(number_neg(self->Double_0)),
    {
        match self {
            Value::Double(bits) => {
                proof {
                    lemma_sign_and_magnitude(bits);
                }
                Value::Double(bits ^ SIGN_BIT)
            },
            _ => self,
        }
    }
}

impl PartialEq for Value {
    fn eq(&self, other: &Self) -> (equal: bool) {
        match (self, other) {
            (Value::Boolean(a), Value::Boolean(b)) => *a == *b,
            (Value::Double(a), Value::Double(b)) => numbers_equal(*a, *b),
            (Value::Object(a), Value::Object(b)) => a.0 == b.0,
            (Value::Nil, Value::Nil) => true,
            _ => false,
        }
    }
}

impl PartialEqSpecImpl for Value {
    open spec fn obeys_eq_spec() -> bool {
        true
    }

    open spec fn eq_spec(&self, other: &Self) -> bool {
        value_eq(*self, *other)
    }
}

/// Whether each handle among `values` names an object of `heap` that the
/// root set holds: no collection frees an object that `values` refer to.
pub open spec fn protects(heap: HeapView, values: Seq<Value>) -> bool {
    forall|i: int|
        0 <= i < values.len() ==> match #[trigger] values[i] {
            Value::Object(handle) => heap.roots.contains(handle) && heap.resolves(handle),
            _ => true,
        }
}

} // verus!
