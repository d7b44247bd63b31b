use rlox::heap::ObjectRef;
use rlox::value::{number_less, numbers_equal, Value};

fn num(x: f64) -> Value {
    Value::Double(x.to_bits())
}

#[test]
fn only_nil_and_false_are_falsey() {
    assert!(Value::Nil.is_falsey());
    assert!(Value::Boolean(false).is_falsey());
    assert!(!Value::Boolean(true).is_falsey());
    assert!(!num(0.0).is_falsey());
    assert!(!num(f64::NAN).is_falsey());
    assert!(!Value::Object(ObjectRef(0)).is_falsey());
}

#[test]
fn values_of_one_variant_compare_by_what_they_hold() {
    assert!(Value::Nil == Value::Nil);
    assert!(Value::Boolean(true) == Value::Boolean(true));
    assert!(Value::Boolean(true) != Value::Boolean(false));
    assert!(num(1.0) == num(1.0));
    assert!(num(1.0) != num(2.0));
    assert!(Value::Object(ObjectRef(3)) == Value::Object(ObjectRef(3)));
    assert!(Value::Object(ObjectRef(3)) != Value::Object(ObjectRef(4)));
}

#[test]
fn values_of_two_variants_are_never_equal() {
    assert!(Value::Nil != Value::Boolean(false));
    assert!(num(0.0) != Value::Boolean(false));
    assert!(num(0.0) != Value::Nil);
    assert!(Value::Object(ObjectRef(0)) != num(0.0));
    assert!(Value::Object(ObjectRef(1)) != Value::Boolean(true));
}

#[test]
fn numbers_are_equal_as_ieee_numbers() {
    assert!(num(f64::NAN) != num(f64::NAN));
    assert!(num(0.0) == num(-0.0));
    assert!(num(f64::INFINITY) == num(f64::INFINITY));
    assert!(num(f64::INFINITY) != num(f64::NEG_INFINITY));
    assert!(numbers_equal(2.5f64.to_bits(), 2.5f64.to_bits()));
    assert!(!numbers_equal(f64::NAN.to_bits(), 1.0f64.to_bits()));
}

#[test]
fn less_than_agrees_with_floating_point_order() {
    let samples = [
        f64::NEG_INFINITY,
        -1.5e300,
        -2.0,
        -1.0,
        -f64::MIN_POSITIVE,
        -5e-324,
        -0.0,
        0.0,
        5e-324,
        f64::MIN_POSITIVE,
        0.5,
        1.0,
        2.0,
        1.5e300,
        f64::INFINITY,
        f64::NAN,
    ];
    for a in samples {
        for b in samples {
            assert_eq!(number_less(a.to_bits(), b.to_bits()), a < b, "{} < {}", a, b);
            assert_eq!(numbers_equal(a.to_bits(), b.to_bits()), a == b, "{} == {}", a, b);
        }
    }
}

#[test]
fn negation_flips_the_sign() {
    for x in [0.0, -0.0, 1.0, -2.5, f64::INFINITY, f64::MIN_POSITIVE] {
        match num(x).neg() {
            Value::Double(bits) => assert_eq!(bits, (-x).to_bits()),
            other => panic!("not a number: {:?}", other),
        }
    }
    match num(f64::NAN).neg() {
        Value::Double(bits) => assert!(f64::from_bits(bits).is_nan()),
        other => panic!("not a number: {:?}", other),
    }
}
