use rlox::scanner::{Scanner, Token, TokenType};

fn kinds(source: &str) -> Vec<TokenType> {
    Scanner::init(source.to_string()).scan().iter().map(|t| t.token_type).collect()
}

fn lexemes(source: &str) -> Vec<String> {
    Scanner::init(source.to_string()).scan().iter().map(|t| t.source.clone()).collect()
}

fn bare(tokens: &[Token]) -> Vec<(TokenType, String)> {
    tokens.iter().map(|t| (t.token_type, t.source.clone())).collect()
}

#[test]
fn scans_a_number_and_an_operator() {
    let mut scanner = Scanner::init("12.5 >= x // rest\n\"two\nlines\"".to_string());
    let first = scanner.scan_token();
    assert_eq!(first.token_type, TokenType::Number);
    assert_eq!(first.source, "12.5");
    assert_eq!(first.line, 1);
    let second = scanner.scan_token();
    assert_eq!(second.token_type, TokenType::GreaterEqual);
    assert_eq!(second.source, ">=");
    let third = scanner.scan_token();
    assert_eq!(third.token_type, TokenType::Identifier);
    assert_eq!(third.source, "x");
    let fourth = scanner.scan_token();
    assert_eq!(fourth.token_type, TokenType::String);
    assert_eq!(fourth.source, "two\nlines");
    assert_eq!(fourth.line, 3);
    let fifth = scanner.scan_token();
    assert_eq!(fifth.token_type, TokenType::EOF);
    assert_eq!(fifth.source, "");
    let sixth = scanner.scan_token();
    assert_eq!(sixth.token_type, TokenType::EOF);
}

#[test]
fn scans_every_punctuation_mark() {
    assert_eq!(
        kinds("(){},.-+;/*"),
        vec![
            TokenType::LeftParen,
            TokenType::RightParen,
            TokenType::LeftBrace,
            TokenType::RightBrace,
            TokenType::Comma,
            TokenType::Dot,
            TokenType::Minus,
            TokenType::Plus,
            TokenType::Semicolon,
            TokenType::Slash,
            TokenType::Star,
            TokenType::EOF,
        ]
    );
}

#[test]
fn scans_one_and_two_character_operators() {
    assert_eq!(
        kinds("! != = == < <= > >="),
        vec![
            TokenType::Bang,
            TokenType::BangEqual,
            TokenType::Equal,
            TokenType::EqualEqual,
            TokenType::Less,
            TokenType::LessEqual,
            TokenType::Greater,
            TokenType::GreaterEqual,
            TokenType::EOF,
        ]
    );
    assert_eq!(lexemes("!=="), vec!["!=", "=", ""]);
}

#[test]
fn scans_every_keyword() {
    assert_eq!(
        kinds("and class else false for fun if nil or print return super this true var while"),
        vec![
            TokenType::And,
            TokenType::Class,
            TokenType::Else,
            TokenType::False,
            TokenType::For,
            TokenType::Fun,
            TokenType::If,
            TokenType::Nil,
            TokenType::Or,
            TokenType::Print,
            TokenType::Return,
            TokenType::Super,
            TokenType::This,
            TokenType::True,
            TokenType::Var,
            TokenType::While,
            TokenType::EOF,
        ]
    );
}

#[test]
fn a_word_that_only_starts_like_a_keyword_is_an_identifier() {
    assert_eq!(
        kinds("andy _nil classy Or"),
        vec![
            TokenType::Identifier,
            TokenType::Identifier,
            TokenType::Identifier,
            TokenType::Identifier,
            TokenType::EOF
        ]
    );
    assert_eq!(TokenType::from_word("while"), TokenType::While);
    assert_eq!(TokenType::from_word("whil"), TokenType::Identifier);
    assert_eq!(TokenType::from_word(""), TokenType::Identifier);
}

#[test]
fn identifiers_take_no_digits() {
    assert_eq!(kinds("ab12"), vec![TokenType::Identifier, TokenType::Number, TokenType::EOF]);
    assert_eq!(lexemes("ab12"), vec!["ab", "12", ""]);
}

#[test]
fn a_trailing_dot_is_not_part_of_a_number() {
    assert_eq!(kinds("12."), vec![TokenType::Number, TokenType::Dot, TokenType::EOF]);
    assert_eq!(lexemes("12."), vec!["12", ".", ""]);
    assert_eq!(lexemes("1.5.25"), vec!["1.5", ".", "25", ""]);
    assert_eq!(kinds(".5"), vec![TokenType::Dot, TokenType::Number, TokenType::EOF]);
}

#[test]
fn a_comment_runs_to_the_end_of_the_line() {
    let tokens = Scanner::init("1 // two three\n4".to_string()).scan();
    assert_eq!(
        bare(&tokens),
        vec![
            (TokenType::Number, "1".to_string()),
            (TokenType::Number, "4".to_string()),
            (TokenType::EOF, String::new())
        ]
    );
    assert_eq!(tokens[1].line, 2);
    assert_eq!(kinds("// only a comment"), vec![TokenType::EOF]);
}

#[test]
fn a_single_slash_is_a_token() {
    assert_eq!(
        kinds("2.5 / 0.5"),
        vec![TokenType::Number, TokenType::Slash, TokenType::Number, TokenType::EOF]
    );
    assert_eq!(kinds("/"), vec![TokenType::Slash, TokenType::EOF]);
}

#[test]
fn white_space_is_passed_over_and_newlines_are_counted() {
    let tokens = Scanner::init(" \t\r\n\n  x\n".to_string()).scan();
    assert_eq!(tokens.len(), 2);
    assert_eq!(tokens[0].token_type, TokenType::Identifier);
    assert_eq!(tokens[0].line, 3);
    assert_eq!(tokens[1].token_type, TokenType::EOF);
    assert_eq!(tokens[1].line, 4);
}

#[test]
fn a_string_token_holds_the_text_between_the_quotes() {
    let tokens = Scanner::init("\"\" \"a b\"".to_string()).scan();
    assert_eq!(
        bare(&tokens),
        vec![
            (TokenType::String, String::new()),
            (TokenType::String, "a b".to_string()),
            (TokenType::EOF, String::new())
        ]
    );
}

#[test]
fn an_unterminated_string_is_an_error_token_with_the_message() {
    let tokens = Scanner::init("1 \"abc\ndef".to_string()).scan();
    assert_eq!(tokens.len(), 3);
    assert_eq!(tokens[1].token_type, TokenType::Error);
    assert_eq!(tokens[1].source, "Unterminated string literal.");
    assert_eq!(tokens[1].line, 2);
    assert_eq!(tokens[2].token_type, TokenType::EOF);
}

#[test]
fn an_unexpected_character_is_an_error_token_with_the_message() {
    let tokens = Scanner::init("1 @ 2".to_string()).scan();
    assert_eq!(tokens.len(), 4);
    assert_eq!(tokens[1].token_type, TokenType::Error);
    assert_eq!(tokens[1].source, "Unexpected character.");
    assert_eq!(tokens[2].source, "2");
}

#[test]
fn an_empty_source_is_one_eof_token_on_line_one() {
    let tokens = Scanner::init(String::new()).scan();
    assert_eq!(tokens.len(), 1);
    assert_eq!(tokens[0].token_type, TokenType::EOF);
    assert_eq!(tokens[0].source, "");
    assert_eq!(tokens[0].line, 1);
}

#[test]
fn eof_repeats_once_reached() {
    let mut scanner = Scanner::init("nil // done\n".to_string());
    assert_eq!(scanner.scan_token().token_type, TokenType::Nil);
    for _ in 0..5 {
        let token = scanner.scan_token();
        assert_eq!(token.token_type, TokenType::EOF);
        assert_eq!(token.source, "");
        assert_eq!(token.line, 2);
    }
}

#[test]
fn scanning_joined_sources_yields_the_tokens_of_both() {
    let a = "1 + \"x\" // note\n";
    let b = "(true) != nil";
    let mut joined = a.to_string();
    joined.push_str(b);
    let first = Scanner::init(a.to_string()).scan();
    let second = Scanner::init(b.to_string()).scan();
    let both = Scanner::init(joined).scan();
    let mut expected = bare(&first);
    expected.pop();
    expected.extend(bare(&second));
    assert_eq!(bare(&both), expected);
    // The second source starts on the line on which the first ends.
    assert_eq!(both[3].line, 2);
    assert_eq!(second[0].line, 1);
}

#[test]
fn a_scanner_does_not_depend_on_one_used_before() {
    let mut first = Scanner::init("1 +".to_string());
    first.scan();
    let after = Scanner::init("2 * 3".to_string()).scan();
    let alone = Scanner::init("2 * 3".to_string()).scan();
    assert_eq!(bare(&after), bare(&alone));
}
