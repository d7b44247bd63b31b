use rlox::compiler::number_literals;
use rlox::vm::{ArithmeticOp, InterpretError, Outcome, Output, VM};

fn numbers_of(source: &str) -> Vec<Option<u64>> {
    number_literals(source.to_string())
        .iter()
        .map(|literal| literal.parse::<f64>().ok().map(f64::to_bits))
        .collect()
}

fn run_to_end(vm: &mut VM, source: &str) -> Outcome {
    assert!(source.is_ascii());
    let numbers = numbers_of(source);
    let mut outcome = vm.interpret(source.to_string(), &numbers);
    loop {
        match outcome {
            Outcome::Arithmetic(op, left, right) => {
                assert!(vm.is_waiting());
                let (a, b) = (f64::from_bits(left), f64::from_bits(right));
                let result = match op {
                    ArithmeticOp::Add => a + b,
                    ArithmeticOp::Subtract => a - b,
                    ArithmeticOp::Multiply => a * b,
                    ArithmeticOp::Divide => a / b,
                };
                outcome = vm.resume(result.to_bits());
            }
            other => return other,
        }
    }
}

fn evaluate(source: &str) -> Outcome {
    let mut vm = VM::init();
    run_to_end(&mut vm, source)
}

fn printed(outcome: &Outcome) -> String {
    match outcome {
        Outcome::Finished(Output::Number(bits)) => format!("{}", f64::from_bits(*bits)),
        Outcome::Finished(Output::Boolean(b)) => format!("{}", b),
        Outcome::Finished(Output::Nil) => "nil".to_string(),
        Outcome::Finished(Output::Text(text)) => text.clone(),
        Outcome::Finished(Output::InvalidObject) => "[invalid object]".to_string(),
        other => panic!("no value was printed: {:?}", other),
    }
}

#[test]
fn multiplication_binds_tighter_than_addition() {
    assert_eq!(printed(&evaluate("1 + 2 * 3")), "7");
}

#[test]
fn grouping_overrides_precedence() {
    assert_eq!(printed(&evaluate("(1 + 2) * 3")), "9");
}

#[test]
fn not_nil_equals_true() {
    assert_eq!(printed(&evaluate("!nil == true")), "true");
}

#[test]
fn strings_concatenate() {
    assert_eq!(printed(&evaluate("\"foo\" + \"bar\"")), "foobar");
}

#[test]
fn negating_a_string_is_a_runtime_error() {
    let outcome = evaluate("-\"foo\"");
    assert_eq!(outcome.error(), Some(InterpretError::RuntimeError));
    match outcome {
        Outcome::RuntimeError(message, line) => {
            assert_eq!(message, "Operands must be numbers.");
            assert_eq!(line, 1);
        }
        other => panic!("unexpected outcome: {:?}", other),
    }
}

#[test]
fn adding_a_number_and_a_string_is_a_runtime_error() {
    let outcome = evaluate("1 + \"foo\"");
    assert_eq!(outcome.error(), Some(InterpretError::RuntimeError));
    match outcome {
        Outcome::RuntimeError(message, _) => assert_eq!(message, "Operands must be numbers."),
        other => panic!("unexpected outcome: {:?}", other),
    }
}

#[test]
fn division_of_fractions() {
    assert_eq!(printed(&evaluate("2.5 / 0.5")), "5");
}

#[test]
fn numbers_compare_by_value_and_never_equal_strings() {
    assert_eq!(printed(&evaluate("1 == 1.0")), "true");
    assert_eq!(printed(&evaluate("1 == \"1\"")), "false");
}
