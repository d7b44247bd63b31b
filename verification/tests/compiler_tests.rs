use rlox::chunk::Chunk;
use rlox::compiler::{compile, number_literals, Diagnostic, Parser, Precedence, PrefixRule};
use rlox::heap::{ObjectHeap, ObjectRef};
use rlox::scanner::TokenType;
use rlox::value::Value;

fn numbers_of(source: &str) -> Vec<Option<u64>> {
    number_literals(source.to_string())
        .iter()
        .map(|literal| literal.parse::<f64>().ok().map(f64::to_bits))
        .collect()
}

fn compile_source(source: &str) -> (Chunk, ObjectHeap, Result<(), Vec<Diagnostic>>) {
    let mut chunk = Chunk::new();
    let mut heap = ObjectHeap::new();
    let result = compile(source.to_string(), &numbers_of(source), &mut chunk, &mut heap);
    (chunk, heap, result)
}

fn code_of(source: &str) -> Vec<u8> {
    let (chunk, _, result) = compile_source(source);
    assert!(result.is_ok(), "{} did not compile", source);
    assert_eq!(chunk.lines().len(), chunk.code().len());
    chunk.code().clone()
}

fn first_error(source: &str) -> Diagnostic {
    let (chunk, _, result) = compile_source(source);
    assert_eq!(chunk.lines().len(), chunk.code().len());
    let mut diagnostics = result.expect_err("the source compiled");
    assert_eq!(diagnostics.len(), 1);
    diagnostics.remove(0)
}

#[test]
fn the_precedence_ladder_rises_one_step_at_a_time() {
    let ladder = [
        Precedence::Lowest,
        Precedence::Assignment,
        Precedence::Or,
        Precedence::And,
        Precedence::Equality,
        Precedence::Comparison,
        Precedence::Term,
        Precedence::Factor,
        Precedence::Unary,
        Precedence::Call,
        Precedence::Primary,
    ];
    for (level, precedence) in ladder.iter().enumerate() {
        assert_eq!(precedence.level(), level as u8);
        let next = if level < 10 { ladder[level + 1] } else { Precedence::Primary };
        assert_eq!(precedence.next(), next);
    }
}

#[test]
fn the_parse_table_has_the_rows_of_the_operators_and_literals() {
    let minus = Parser::get_rule(TokenType::Minus);
    assert_eq!(minus.prefix, Some(PrefixRule::Unary));
    assert!(minus.infix.is_some());
    assert_eq!(minus.precedence, Precedence::Term);
    let plus = Parser::get_rule(TokenType::Plus);
    assert_eq!(plus.prefix, None);
    assert!(plus.infix.is_some());
    assert_eq!(plus.precedence, Precedence::Term);
    for kind in [TokenType::Slash, TokenType::Star] {
        let rule = Parser::get_rule(kind);
        assert_eq!(rule.prefix, None);
        assert!(rule.infix.is_some());
        assert_eq!(rule.precedence, Precedence::Factor);
    }
    let bang = Parser::get_rule(TokenType::Bang);
    assert_eq!(bang.prefix, Some(PrefixRule::Unary));
    assert!(bang.infix.is_none());
    assert_eq!(bang.precedence, Precedence::Lowest);
    for kind in [TokenType::BangEqual, TokenType::EqualEqual] {
        assert_eq!(Parser::get_rule(kind).precedence, Precedence::Equality);
    }
    for kind in
        [TokenType::Less, TokenType::LessEqual, TokenType::Greater, TokenType::GreaterEqual]
    {
        let rule = Parser::get_rule(kind);
        assert!(rule.infix.is_some());
        assert_eq!(rule.precedence, Precedence::Comparison);
    }
    assert_eq!(Parser::get_rule(TokenType::LeftParen).prefix, Some(PrefixRule::Grouping));
    assert_eq!(Parser::get_rule(TokenType::Number).prefix, Some(PrefixRule::Number));
    assert_eq!(Parser::get_rule(TokenType::String).prefix, Some(PrefixRule::String));
    for kind in [TokenType::True, TokenType::False, TokenType::Nil] {
        assert_eq!(Parser::get_rule(kind).prefix, Some(PrefixRule::Literal));
    }
    for kind in [
        TokenType::RightParen,
        TokenType::Equal,
        TokenType::Identifier,
        TokenType::And,
        TokenType::Print,
        TokenType::Error,
        TokenType::EOF,
    ] {
        let rule = Parser::get_rule(kind);
        assert!(rule.prefix.is_none());
        assert!(rule.infix.is_none());
        assert_eq!(rule.precedence, Precedence::Lowest);
    }
}

#[test]
fn number_literals_are_listed_in_source_order() {
    assert_eq!(number_literals("1 + 2.50 * (x - 03)".to_string()), vec!["1", "2.50", "03"]);
    assert!(number_literals("\"12\" // 3".to_string()).is_empty());
}

#[test]
fn a_product_is_compiled_before_the_sum_it_belongs_to() {
    // Constant 0, Constant 1, Constant 2, Multiply, Add, Return
    assert_eq!(code_of("1 + 2 * 3"), vec![1, 0, 1, 1, 1, 2, 9, 7, 0]);
    assert_eq!(code_of("1 * 2 + 3"), vec![1, 0, 1, 1, 9, 1, 2, 7, 0]);
}

#[test]
fn a_group_is_compiled_as_one_operand() {
    assert_eq!(code_of("(1 + 2) * 3"), vec![1, 0, 1, 1, 7, 1, 2, 9, 0]);
}

#[test]
fn binary_operators_associate_to_the_left() {
    // (1 - 2) - 3
    assert_eq!(code_of("1 - 2 - 3"), vec![1, 0, 1, 1, 8, 1, 2, 8, 0]);
    assert_eq!(code_of("8 / 4 / 2"), vec![1, 0, 1, 1, 10, 1, 2, 10, 0]);
}

#[test]
fn literals_and_unary_operators() {
    assert_eq!(code_of("nil"), vec![3, 0]);
    assert_eq!(code_of("true"), vec![4, 0]);
    assert_eq!(code_of("false"), vec![5, 0]);
    assert_eq!(code_of("-1"), vec![1, 0, 6, 0]);
    assert_eq!(code_of("!true"), vec![4, 11, 0]);
    assert_eq!(code_of("!!nil"), vec![3, 11, 11, 0]);
    assert_eq!(code_of("--1"), vec![1, 0, 6, 6, 0]);
    // A unary operator binds tighter than any binary operator.
    assert_eq!(code_of("-1 + 2"), vec![1, 0, 6, 1, 1, 7, 0]);
    assert_eq!(code_of("!nil == true"), vec![3, 11, 4, 12, 0]);
}

#[test]
fn each_comparison_has_its_opcodes() {
    assert_eq!(code_of("1 == 2"), vec![1, 0, 1, 1, 12, 0]);
    assert_eq!(code_of("1 != 2"), vec![1, 0, 1, 1, 12, 11, 0]);
    assert_eq!(code_of("1 < 2"), vec![1, 0, 1, 1, 14, 0]);
    assert_eq!(code_of("1 <= 2"), vec![1, 0, 1, 1, 13, 11, 0]);
    assert_eq!(code_of("1 > 2"), vec![1, 0, 1, 1, 13, 0]);
    assert_eq!(code_of("1 >= 2"), vec![1, 0, 1, 1, 14, 11, 0]);
    // Comparison binds tighter than equality, and looser than a sum.
    assert_eq!(code_of("1 < 2 == 3 + 4 > 5"), vec![
        1, 0, 1, 1, 14, 1, 2, 1, 3, 7, 1, 4, 13, 12, 0
    ]);
}

#[test]
fn number_constants_hold_the_converted_values() {
    let (chunk, _, result) = compile_source("1.5 + 2");
    assert!(result.is_ok());
    assert_eq!(chunk.constants().len(), 2);
    match (chunk.constants()[0], chunk.constants()[1]) {
        (Value::Double(a), Value::Double(b)) => {
            assert_eq!(f64::from_bits(a), 1.5);
            assert_eq!(f64::from_bits(b), 2.0);
        }
        other => panic!("unexpected constants: {:?}", other),
    }
}

#[test]
fn each_byte_has_the_line_of_its_token() {
    let (chunk, _, result) = compile_source("1 +\n2\n*\n3\n");
    assert!(result.is_ok());
    assert_eq!(chunk.code(), &vec![1u8, 0, 1, 1, 1, 2, 9, 7, 0]);
    // The operands on their lines, `*` on line 3, `+` on line 1, `Return` on
    // the line of the end of the source.
    assert_eq!(chunk.lines(), &vec![1u32, 1, 2, 2, 4, 4, 3, 1, 5]);
}

#[test]
fn a_string_literal_is_allocated_and_made_a_root() {
    let (chunk, mut heap, result) = compile_source("\"foo\" + \"bar\"");
    assert!(result.is_ok());
    assert_eq!(chunk.code(), &vec![1u8, 0, 1, 1, 7, 0]);
    let handles: Vec<ObjectRef> = chunk
        .constants()
        .iter()
        .map(|value| match value {
            Value::Object(handle) => *handle,
            other => panic!("not a handle: {:?}", other),
        })
        .collect();
    assert_eq!(handles, vec![ObjectRef(0), ObjectRef(1)]);
    assert_eq!(heap.get_string(handles[0]), Some("foo".to_string()));
    assert_eq!(heap.get_string(handles[1]), Some("bar".to_string()));
    heap.collect_garbage();
    assert_eq!(heap.get_string(handles[0]), Some("foo".to_string()));
    assert_eq!(heap.get_string(handles[1]), Some("bar".to_string()));
}

#[test]
fn the_index_of_the_257th_constant_takes_the_long_form() {
    let source = vec!["1"; 257].join("+");
    let (chunk, _, result) = compile_source(&source);
    assert!(result.is_ok());
    assert_eq!(chunk.constants().len(), 257);
    let code = chunk.code();
    // The 256th constant is the last with a one-byte index.
    let short = 2 + 254 * 3;
    assert_eq!(&code[short..short + 3], &[1u8, 255, 7]);
    assert_eq!(&code[short + 3..], &[2u8, 0, 1, 0, 7, 0]);
    assert_eq!(chunk.lines().len(), code.len());
    let listing = chunk.disassemble_all();
    assert_eq!(listing.len(), 257 + 256 + 1);
}

#[test]
fn compiling_appends_to_the_chunk() {
    let mut chunk = Chunk::new();
    let mut heap = ObjectHeap::new();
    assert!(compile("nil".to_string(), &vec![], &mut chunk, &mut heap).is_ok());
    assert!(compile("7".to_string(), &vec![Some(7f64.to_bits())], &mut chunk, &mut heap).is_ok());
    assert_eq!(chunk.code(), &vec![3u8, 0, 1, 0, 0]);
}

#[test]
fn an_empty_source_expects_an_expression_at_the_end() {
    let error = first_error("");
    assert_eq!(error.message, "Expect expression.");
    assert_eq!(error.token.token_type, TokenType::EOF);
    assert_eq!(error.token.line, 1);
    let error = first_error("1 +\n");
    assert_eq!(error.message, "Expect expression.");
    assert_eq!(error.token.token_type, TokenType::EOF);
    assert_eq!(error.token.line, 2);
}

#[test]
fn a_token_that_starts_no_expression_is_reported_with_its_lexeme() {
    let error = first_error("* 2");
    assert_eq!(error.message, "Expect expression.");
    assert_eq!(error.token.token_type, TokenType::Star);
    assert_eq!(error.token.source, "*");
    let error = first_error("1 + print");
    assert_eq!(error.token.token_type, TokenType::Print);
    assert_eq!(error.token.source, "print");
}

#[test]
fn a_group_must_be_closed() {
    let error = first_error("(1 + 2");
    assert_eq!(error.message, "Expect ')' after expression.");
    assert_eq!(error.token.token_type, TokenType::EOF);
    let error = first_error("(1 2)");
    assert_eq!(error.message, "Expect ')' after expression.");
    assert_eq!(error.token.source, "2");
}

#[test]
fn nothing_may_follow_the_expression() {
    let error = first_error("1 2");
    assert_eq!(error.message, "Expect end of expression.");
    assert_eq!(error.token.token_type, TokenType::Number);
    assert_eq!(error.token.source, "2");
    let error = first_error("1 )");
    assert_eq!(error.message, "Expect end of expression.");
    assert_eq!(error.token.token_type, TokenType::RightParen);
}

#[test]
fn a_scanner_error_is_reported_with_the_scanners_message() {
    let error = first_error("1 + @");
    assert_eq!(error.message, "Unexpected character.");
    assert_eq!(error.token.token_type, TokenType::Error);
    assert_eq!(error.token.line, 1);
    let error = first_error("\n\"open");
    assert_eq!(error.message, "Unterminated string literal.");
    assert_eq!(error.token.token_type, TokenType::Error);
    assert_eq!(error.token.line, 2);
}

#[test]
fn only_the_first_error_is_reported() {
    // `@`, then a missing operand, then a missing `)`.
    let (_, _, result) = compile_source("(@ + ");
    let diagnostics = result.expect_err("the source compiled");
    assert_eq!(diagnostics.len(), 1);
    assert_eq!(diagnostics[0].message, "Unexpected character.");
    let (_, _, result) = compile_source(") ) )");
    let diagnostics = result.expect_err("the source compiled");
    assert_eq!(diagnostics.len(), 1);
    assert_eq!(diagnostics[0].message, "Expect expression.");
}

#[test]
fn a_literal_that_was_not_converted_fails_to_parse() {
    let mut chunk = Chunk::new();
    let mut heap = ObjectHeap::new();
    let numbers = vec![Some(1f64.to_bits()), None];
    let result = compile("1 + 2".to_string(), &numbers, &mut chunk, &mut heap);
    let diagnostics = result.expect_err("the source compiled");
    assert_eq!(diagnostics.len(), 1);
    assert_eq!(diagnostics[0].message, "Failed to parse number.");
    assert_eq!(diagnostics[0].token.source, "2");
    assert_eq!(chunk.constants().len(), 1);

    let mut chunk = Chunk::new();
    let result = compile("1 + 2".to_string(), &vec![Some(1f64.to_bits())], &mut chunk, &mut heap);
    let diagnostics = result.expect_err("the source compiled");
    assert_eq!(diagnostics[0].message, "Failed to parse number.");
    assert_eq!(diagnostics[0].token.source, "2");
}

#[test]
fn a_number_after_an_error_token_takes_its_own_value() {
    let mut chunk = Chunk::new();
    let mut heap = ObjectHeap::new();
    let numbers = vec![Some(1f64.to_bits()), Some(2f64.to_bits())];
    let result = compile("1 @ + 2".to_string(), &numbers, &mut chunk, &mut heap);
    assert!(result.is_err());
    match (chunk.constants()[0], chunk.constants()[1]) {
        (Value::Double(a), Value::Double(b)) => {
            assert_eq!(f64::from_bits(a), 1.0);
            assert_eq!(f64::from_bits(b), 2.0);
        }
        other => panic!("unexpected constants: {:?}", other),
    }
}

#[test]
fn a_failed_compilation_still_ends_with_return() {
    let (chunk, _, result) = compile_source("1 +");
    assert!(result.is_err());
    assert_eq!(chunk.code(), &vec![1u8, 0, 7, 0]);
    assert_eq!(chunk.lines().len(), chunk.code().len());
}

#[test]
fn a_chunk_holds_two_to_the_24th_constants_and_no_more() {
    let mut chunk = Chunk::new();
    let mut heap = ObjectHeap::new();
    for _ in 0..(1 << 24) - 1 {
        chunk.add_constant(Value::Nil);
    }
    let numbers = vec![Some(1f64.to_bits()), Some(2f64.to_bits())];
    let result = compile("1 + 2".to_string(), &numbers, &mut chunk, &mut heap);
    let diagnostics = result.expect_err("the source compiled");
    assert_eq!(diagnostics.len(), 1);
    assert_eq!(diagnostics[0].message, "Too many constants in one chunk.");
    assert_eq!(diagnostics[0].token.source, "2");
    // The first literal took the last index, in the long form.
    assert_eq!(chunk.constants().len(), 1 << 24);
    assert_eq!(chunk.code(), &vec![2u8, 0xff, 0xff, 0xff, 7, 0]);

    let result = compile("\"late\"".to_string(), &vec![], &mut chunk, &mut heap);
    let diagnostics = result.expect_err("the source compiled");
    assert_eq!(diagnostics[0].message, "Too many constants in one chunk.");
    assert_eq!(heap.stats().total_slots, 0);
}

#[test]
fn a_compiled_chunk_can_be_rebuilt_from_its_disassembly() {
    let source = format!("!(1 + {} * -3 <= 4) == (\"a\" + \"b\" != nil)", vec!["2"; 300].join(" - "));
    let (chunk, _, result) = compile_source(&source);
    assert!(result.is_ok());
    let mut code = Vec::new();
    let mut offset = 0;
    for instruction in chunk.disassemble_all() {
        assert_eq!(instruction.offset, offset);
        code.push(instruction.opcode.to_byte());
        match instruction.constant {
            Some((index, _)) if index <= 255 => code.push(index as u8),
            Some((index, _)) => code.extend_from_slice(&index.to_le_bytes()[0..3]),
            None => (),
        }
        offset = code.len();
    }
    assert_eq!(&code, chunk.code());
}
