use rlox::compiler::number_literals;
use rlox::heap::ObjectRef;
use rlox::value::Value;
use rlox::vm::{ArithmeticOp, InterpretError, Outcome, Output, STACK_MAX, VM};

fn numbers_of(source: &str) -> Vec<Option<u64>> {
    number_literals(source.to_string())
        .iter()
        .map(|literal| literal.parse::<f64>().ok().map(f64::to_bits))
        .collect()
}

fn compute(op: ArithmeticOp, left: u64, right: u64) -> u64 {
    let (a, b) = (f64::from_bits(left), f64::from_bits(right));
    let result = match op {
        ArithmeticOp::Add => a + b,
        ArithmeticOp::Subtract => a - b,
        ArithmeticOp::Multiply => a * b,
        ArithmeticOp::Divide => a / b,
    };
    result.to_bits()
}

fn run(vm: &mut VM, source: &str) -> Outcome {
    let mut outcome = vm.interpret(source.to_string(), &numbers_of(source));
    loop {
        assert!(vm.stack_len() <= STACK_MAX);
        match outcome {
            Outcome::Arithmetic(op, left, right) => {
                assert!(vm.is_waiting());
                outcome = vm.resume(compute(op, left, right));
            }
            other => {
                assert!(!vm.is_waiting());
                return other;
            }
        }
    }
}

fn number(source: &str) -> f64 {
    match run(&mut VM::init(), source) {
        Outcome::Finished(Output::Number(bits)) => f64::from_bits(bits),
        other => panic!("{} did not yield a number: {:?}", source, other),
    }
}

fn boolean(source: &str) -> bool {
    match run(&mut VM::init(), source) {
        Outcome::Finished(Output::Boolean(b)) => b,
        other => panic!("{} did not yield a boolean: {:?}", source, other),
    }
}

fn text(source: &str) -> String {
    match run(&mut VM::init(), source) {
        Outcome::Finished(Output::Text(text)) => text,
        other => panic!("{} did not yield a string: {:?}", source, other),
    }
}

fn runtime_error(source: &str) -> (String, u32) {
    let outcome = run(&mut VM::init(), source);
    assert_eq!(outcome.error(), Some(InterpretError::RuntimeError));
    match outcome {
        Outcome::RuntimeError(message, line) => (message, line),
        other => panic!("{} did not fail: {:?}", source, other),
    }
}

#[test]
fn a_new_machine_is_idle_and_empty() {
    let vm = VM::init();
    assert_eq!(vm.stack_len(), 0);
    assert!(!vm.is_waiting());
    assert!(vm.chunk().code().is_empty());
    assert_eq!(vm.heap().stats().total_slots, 0);
}

#[test]
fn push_pop_and_peek_work_on_the_top_of_the_stack() {
    let mut vm = VM::init();
    vm.push(Value::Nil);
    vm.push(Value::Boolean(true));
    vm.push(Value::Double(7));
    assert_eq!(vm.stack_len(), 3);
    assert!(*vm.peek(0) == Value::Double(7));
    assert!(*vm.peek(1) == Value::Boolean(true));
    assert!(*vm.peek(2) == Value::Nil);
    assert!(vm.pop() == Value::Double(7));
    assert!(vm.pop() == Value::Boolean(true));
    assert_eq!(vm.stack_len(), 1);
    assert!(*vm.peek(0) == Value::Nil);
    for _ in 1..STACK_MAX {
        vm.push(Value::Object(ObjectRef(0)));
    }
    assert_eq!(vm.stack_len(), STACK_MAX);
}

#[test]
fn the_first_arithmetic_operation_stops_the_run_with_its_operands() {
    let mut vm = VM::init();
    let source = "7 - 2 * 3";
    match vm.interpret(source.to_string(), &numbers_of(source)) {
        Outcome::Arithmetic(ArithmeticOp::Multiply, left, right) => {
            assert_eq!(f64::from_bits(left), 2.0);
            assert_eq!(f64::from_bits(right), 3.0);
        }
        other => panic!("unexpected outcome: {:?}", other),
    }
    assert!(vm.is_waiting());
    assert_eq!(vm.stack_len(), 1);
    match vm.resume(6f64.to_bits()) {
        Outcome::Arithmetic(ArithmeticOp::Subtract, left, right) => {
            assert_eq!(f64::from_bits(left), 7.0);
            assert_eq!(f64::from_bits(right), 6.0);
        }
        other => panic!("unexpected outcome: {:?}", other),
    }
    assert_eq!(vm.stack_len(), 0);
    match vm.resume(1f64.to_bits()) {
        Outcome::Finished(Output::Number(bits)) => assert_eq!(f64::from_bits(bits), 1.0),
        other => panic!("unexpected outcome: {:?}", other),
    }
    assert!(!vm.is_waiting());
    assert_eq!(vm.stack_len(), 0);
}

#[test]
fn arithmetic_takes_the_left_operand_first() {
    assert_eq!(number("7 - 2"), 5.0);
    assert_eq!(number("1 - 2 - 3"), -4.0);
    assert_eq!(number("8 / 4 / 2"), 1.0);
    assert_eq!(number("2 * 3 + 4 * 5"), 26.0);
    assert_eq!(number("-(1 + 2)"), -3.0);
    assert_eq!(number("--3"), 3.0);
    assert_eq!(number("0.1 + 0.2"), 0.1 + 0.2);
}

#[test]
fn division_by_zero_is_infinite() {
    assert_eq!(number("1 / 0"), f64::INFINITY);
    assert_eq!(number("-1 / 0"), f64::NEG_INFINITY);
    assert!(number("0 / 0").is_nan());
    assert!(!boolean("0 / 0 == 0 / 0"));
    assert!(boolean("0 / 0 != 0 / 0"));
}

#[test]
fn literals_yield_themselves() {
    assert!(boolean("true"));
    assert!(!boolean("false"));
    assert!(matches!(run(&mut VM::init(), "nil"), Outcome::Finished(Output::Nil)));
    assert_eq!(number("12.75"), 12.75);
    assert_eq!(text("\"hello\""), "hello");
    assert_eq!(text("\"\""), "");
}

#[test]
fn not_yields_whether_a_value_is_falsey() {
    assert!(boolean("!nil"));
    assert!(boolean("!false"));
    assert!(!boolean("!true"));
    assert!(!boolean("!0"));
    assert!(!boolean("!\"\""));
    assert!(boolean("!!1"));
}

#[test]
fn comparisons_of_numbers() {
    assert!(boolean("1 < 2"));
    assert!(!boolean("2 < 2"));
    assert!(boolean("2 <= 2"));
    assert!(!boolean("3 <= 2"));
    assert!(boolean("3 > 2"));
    assert!(!boolean("2 > 2"));
    assert!(boolean("2 >= 2"));
    assert!(!boolean("1 >= 2"));
    assert!(boolean("-1 < 0"));
    assert!(boolean("-2 < -1"));
    assert!(!boolean("-0 < 0"));
    assert!(boolean("1 + 1 > 1"));
}

#[test]
fn equality_of_values() {
    assert!(boolean("1 == 1"));
    assert!(boolean("1 == 1.0"));
    assert!(boolean("-0 == 0"));
    assert!(!boolean("1 == 2"));
    assert!(boolean("1 != 2"));
    assert!(boolean("nil == nil"));
    assert!(boolean("true == true"));
    assert!(!boolean("true == false"));
    assert!(!boolean("nil == false"));
    assert!(!boolean("0 == false"));
    assert!(!boolean("1 == \"1\""));
    assert!(!boolean("\"\" == nil"));
}

#[test]
fn strings_are_equal_when_their_texts_are() {
    assert!(boolean("\"a\" == \"a\""));
    assert!(!boolean("\"a\" != \"a\""));
    assert!(boolean("\"a\" != \"b\""));
    assert!(!boolean("\"a\" == \"ab\""));
    assert!(boolean("\"a\" + \"b\" == \"ab\""));
    assert!(boolean("\"\" == \"\""));
    assert!(!boolean("\"1\" == 1"));
}

#[test]
fn concatenation_puts_the_left_text_first() {
    assert_eq!(text("\"foo\" + \"bar\""), "foobar");
    assert_eq!(text("\"a\" + \"b\" + \"c\""), "abc");
    assert_eq!(text("\"a\" + (\"b\" + \"c\")"), "abc");
    assert_eq!(text("(\"a\" + \"b\") + (\"c\" + \"d\")"), "abcd");
    assert_eq!(text("\"\" + \"\""), "");
}

#[test]
fn operands_of_the_wrong_kind_are_runtime_errors() {
    for source in [
        "-\"foo\"",
        "-nil",
        "-true",
        "1 + \"foo\"",
        "\"foo\" + 1",
        "nil + nil",
        "\"a\" - \"b\"",
        "true * 2",
        "2 / nil",
        "1 < \"2\"",
        "\"a\" > \"b\"",
        "nil <= 1",
        "true >= false",
    ] {
        let (message, line) = runtime_error(source);
        assert_eq!(message, "Operands must be numbers.", "{}", source);
        assert_eq!(line, 1, "{}", source);
    }
}

#[test]
fn a_runtime_error_names_the_line_of_the_operator() {
    assert_eq!(runtime_error("1\n+\n\"a\"").1, 2);
    assert_eq!(runtime_error("\n\n-\ntrue").1, 3);
    assert_eq!(runtime_error("1 + 2\n<\n\"a\" + \"b\"").1, 2);
}

#[test]
fn a_compile_error_is_handed_out_with_its_diagnostics() {
    let outcome = run(&mut VM::init(), "(1 + ");
    assert_eq!(outcome.error(), Some(InterpretError::CompileError));
    match outcome {
        Outcome::CompileError(diagnostics) => {
            assert_eq!(diagnostics.len(), 1);
            assert_eq!(diagnostics[0].message, "Expect expression.");
        }
        other => panic!("unexpected outcome: {:?}", other),
    }
    assert!(run(&mut VM::init(), "1").error().is_none());
}

fn nested_sum(operands: usize) -> String {
    let mut source = String::new();
    for _ in 1..operands {
        source.push_str("1 + (");
    }
    source.push('1');
    for _ in 1..operands {
        source.push(')');
    }
    source
}

#[test]
fn the_stack_holds_256_values() {
    assert_eq!(number(&nested_sum(STACK_MAX)), STACK_MAX as f64);
}

#[test]
fn the_257th_value_overflows_the_stack() {
    let mut vm = VM::init();
    let outcome = run(&mut vm, &nested_sum(STACK_MAX + 1));
    match outcome {
        Outcome::RuntimeError(message, line) => {
            assert_eq!(message, "Stack overflow.");
            assert_eq!(line, 1);
        }
        other => panic!("unexpected outcome: {:?}", other),
    }
    assert_eq!(vm.stack_len(), STACK_MAX);
}

#[test]
fn a_long_sum_uses_long_constant_indices() {
    let source = vec!["1"; 300].join(" + ");
    assert_eq!(number(&source), 300.0);
}

#[test]
fn each_program_is_interpreted_on_its_own() {
    let mut vm = VM::init();
    assert!(matches!(run(&mut vm, "1 +"), Outcome::CompileError(_)));
    assert!(matches!(run(&mut vm, "-nil"), Outcome::RuntimeError(_, _)));
    match run(&mut vm, "\"a\" + \"b\"") {
        Outcome::Finished(Output::Text(text)) => assert_eq!(text, "ab"),
        other => panic!("unexpected outcome: {:?}", other),
    }
    match run(&mut vm, "2 * 3") {
        Outcome::Finished(Output::Number(bits)) => assert_eq!(f64::from_bits(bits), 6.0),
        other => panic!("unexpected outcome: {:?}", other),
    }
    assert_eq!(vm.chunk().code(), &vec![1u8, 0, 1, 1, 9, 0]);
    assert_eq!(vm.stack_len(), 0);
}

#[test]
fn the_strings_of_a_program_stay_until_the_next_program() {
    let mut vm = VM::init();
    let block = "x".repeat(300 * 1024);
    let source = format!("\"{0}\" + \"{0}\" + \"{0}\"", block);
    match run(&mut vm, &source) {
        Outcome::Finished(Output::Text(text)) => assert_eq!(text.len(), 3 * block.len()),
        other => panic!("unexpected outcome: {:?}", other),
    }
    // Three literals and two sums, of which the last went over the threshold
    // and collected first: all were roots and stayed.
    assert_eq!(vm.heap().stats().live_objects, 5);
    // The next program releases them: its first allocation over the threshold
    // frees them.
    match run(&mut vm, &source) {
        Outcome::Finished(Output::Text(text)) => assert_eq!(text.len(), 3 * block.len()),
        other => panic!("unexpected outcome: {:?}", other),
    }
    assert!(vm.heap().stats().live_objects <= 6);
    match run(&mut vm, "\"a\" + \"b\"") {
        Outcome::Finished(Output::Text(text)) => assert_eq!(text, "ab"),
        other => panic!("unexpected outcome: {:?}", other),
    }
}
