//! The scanner: source text to tokens, one token per call.

use vstd::prelude::*;
use vstd::string::*;
use vstd::utf8::is_ascii_chars;

verus! {

/// The kinds of token.
#[derive(Copy, Clone, Debug, PartialEq, Eq, Structural)]
pub enum TokenType {
    // Single character tokens
    LeftParen,
    RightParen,
    LeftBrace,
    RightBrace,
    Comma,
    Dot,
    Minus,
    Plus,
    Semicolon,
    Slash,
    Star,
    // One or two character tokens
    Bang,
    BangEqual,
    Equal,
    EqualEqual,
    Greater,
    GreaterEqual,
    Less,
    LessEqual,
    // Literals
    Identifier,
    String,
    Number,
    // Keywords
    And,
    Class,
    Else,
    False,
    For,
    Fun,
    If,
    Nil,
    Or,
    Print,
    Return,
    Super,
    This,
    True,
    Var,
    While,
    Error,
    EOF,
}

/// A token: its kind, its lexeme and the line on which it ends.
///
/// The lexeme of a `String` token is the text between the quotes; that of an
/// `Error` token is the diagnostic message.
#[derive(Debug)]
pub struct Token {
    pub token_type: TokenType,
    pub source: String,
    pub line: u32,
}

/// The mathematical value of a [`Token`].
pub struct TokenView {
    pub kind: TokenType,
    pub lexeme: Seq<char>,
    pub line: u32,
}

impl View for Token {
    type V = TokenView;

    open spec fn view(&self) -> TokenView {
        TokenView { kind: self.token_type, lexeme: self.source@, line: self.line }
    }
}

impl Clone for Token {
    fn clone(&self) -> (copy: Token)
        ensures
            copy@ == self@,
    {
        Token { token_type: self.token_type, source: self.source.clone(), line: self.line }
    }
}

/// The line counter after one more newline; it stops at the largest `u32`.
pub open spec fn bump_line(line: u32) -> u32 {
    if line < u32::MAX {
        (line + 1) as u32
    } else {
        line
    }
}

pub open spec fn is_digit(c: char) -> bool {
    '0' <= c && c <= '9'
}

/// A letter or an underscore: what an identifier is made of.
pub open spec fn is_alpha(c: char) -> bool {
    ('a' <= c && c <= 'z') || ('A' <= c && c <= 'Z') || c == '_'
}

/// White space other than a newline.
pub open spec fn is_blank(c: char) -> bool {
    c == ' ' || c == '\t' || c == '\r' || c == '\x0C'
}

/// Where the next token starts, and the line counter there: white space and
/// `//` comments from `pos` on are passed over, and each newline counts.
/// `in_comment` says that `pos` lies inside a comment.
pub open spec fn skip_trivia(src: Seq<char>, pos: int, line: u32, in_comment: bool) -> (int, u32)
    decreases src.len() - pos,
{
    if pos < 0 || pos >= src.len() {
        (pos, line)
    } else if src[pos] == '\n' {
        skip_trivia(src, pos + 1, bump_line(line), false)
    } else if in_comment || is_blank(src[pos]) {
        skip_trivia(src, pos + 1, line, in_comment)
    } else if src[pos] == '/' && pos + 1 < src.len() && src[pos + 1] == '/' {
        skip_trivia(src, pos + 2, line, true)
    } else {
        (pos, line)
    }
}

/// The end of the run of digits that starts at `pos`.
pub open spec fn digits_end(src: Seq<char>, pos: int) -> int
    decreases src.len() - pos,
{
    if 0 <= pos < src.len() && is_digit(src[pos]) {
        digits_end(src, pos + 1)
    } else {
        pos
    }
}

/// The end of the run of letters and underscores that starts at `pos`.
pub open spec fn word_end(src: Seq<char>, pos: int) -> int
    decreases src.len() - pos,
{
    if 0 <= pos < src.len() && is_alpha(src[pos]) {
        word_end(src, pos + 1)
    } else {
        pos
    }
}

/// The place of the first `"` from `pos` on, or the end of the source.
pub open spec fn quote_pos(src: Seq<char>, pos: int) -> int
    decreases src.len() - pos,
{
    if 0 <= pos < src.len() && src[pos] != '"' {
        quote_pos(src, pos + 1)
    } else {
        pos
    }
}

/// The line counter after the newlines of `src[from..to]`.
pub open spec fn line_after(src: Seq<char>, from: int, to: int, line: u32) -> u32
    decreases to - from,
{
    if from < to && 0 <= from < src.len() {
        line_after(src, from + 1, to, if src[from] == '\n' { bump_line(line) } else { line })
    } else {
        line
    }
}

/// The end of the number literal whose first digit is at `start`: digits, then
/// a `.` and more digits if at least one digit follows the `.`.
pub open spec fn number_end(src: Seq<char>, start: int) -> int {
    let whole = digits_end(src, start + 1);
    if whole + 1 < src.len() && src[whole] == '.' && is_digit(src[whole + 1]) {
        digits_end(src, whole + 2)
    } else {
        whole
    }
}

/// The kind of a word: that of the keyword it spells, else `Identifier`.
pub open spec fn word_kind(word: Seq<char>) -> TokenType {
    if word == "and"@ {
        TokenType::And
    } else if word == "class"@ {
        TokenType::Class
    } else if word == "else"@ {
        TokenType::Else
    } else if word == "false"@ {
        TokenType::False
    } else if word == "for"@ {
        TokenType::For
    } else if word == "fun"@ {
        TokenType::Fun
    } else if word == "if"@ {
        TokenType::If
    } else if word == "nil"@ {
        TokenType::Nil
    } else if word == "or"@ {
        TokenType::Or
    } else if word == "print"@ {
        TokenType::Print
    } else if word == "return"@ {
        TokenType::Return
    } else if word == "super"@ {
        TokenType::Super
    } else if word == "this"@ {
        TokenType::This
    } else if word == "true"@ {
        TokenType::True
    } else if word == "var"@ {
        TokenType::Var
    } else if word == "while"@ {
        TokenType::While
    } else {
        TokenType::Identifier
    }
}

/// The kind of the token that the single character `c` makes, if it makes one.
pub open spec fn punctuation_kind(c: char) -> Option<TokenType> {
    if c == '(' {
        Some(TokenType::LeftParen)
    } else if c == ')' {
        Some(TokenType::RightParen)
    } else if c == '{' {
        Some(TokenType::LeftBrace)
    } else if c == '}' {
        Some(TokenType::RightBrace)
    } else if c == ';' {
        Some(TokenType::Semicolon)
    } else if c == '.' {
        Some(TokenType::Dot)
    } else if c == ',' {
        Some(TokenType::Comma)
    } else if c == '-' {
        Some(TokenType::Minus)
    } else if c == '+' {
        Some(TokenType::Plus)
    } else if c == '/' {
        Some(TokenType::Slash)
    } else if c == '*' {
        Some(TokenType::Star)
    } else {
        None
    }
}

/// The kinds of the operator that starts with `c`: alone, and followed by `=`.
pub open spec fn operator_kinds(c: char) -> Option<(TokenType, TokenType)> {
    if c == '!' {
        Some((TokenType::Bang, TokenType::BangEqual))
    } else if c == '=' {
        Some((TokenType::Equal, TokenType::EqualEqual))
    } else if c == '<' {
        Some((TokenType::Less, TokenType::LessEqual))
    } else if c == '>' {
        Some((TokenType::Greater, TokenType::GreaterEqual))
    } else {
        None
    }
}

/// One step of scanning: the token found, and where the scanner stands after it.
pub struct Scanned {
    pub token: TokenView,
    pub current: int,
    pub line: u32,
}

/// The token of kind `kind` made of `src[start..end]`.
pub open spec fn lexeme_token(
    src: Seq<char>,
    kind: TokenType,
    start: int,
    end: int,
    line: u32,
) -> Scanned {
    Scanned {
        token: TokenView { kind, lexeme: src.subrange(start, end), line },
        current: end,
        line,
    }
}

/// The token that starts at `start`, the first place after white space and
/// comments, with `start < src.len()`.
pub open spec fn scan_at(src: Seq<char>, start: int, line: u32) -> Scanned {
    let c = src[start];
    if is_digit(c) {
        lexeme_token(src, TokenType::Number, start, number_end(src, start), line)
    } else if is_alpha(c) {
        let end = word_end(src, start + 1);
        lexeme_token(src, word_kind(src.subrange(start, end)), start, end, line)
    } else if c == '"' {
        let close = quote_pos(src, start + 1);
        let last_line = line_after(src, start + 1, close, line);
        if close >= src.len() {
            Scanned {
                token: TokenView {
                    kind: TokenType::Error,
                    lexeme: "Unterminated string literal."@,
                    line: last_line,
                },
                current: close,
                line: last_line,
            }
        } else {
            Scanned {
                token: TokenView {
                    kind: TokenType::String,
                    lexeme: src.subrange(start + 1, close),
                    line: last_line,
                },
                current: close + 1,
                line: last_line,
            }
        }
    } else if operator_kinds(c) is Some {
        let (alone, with_equal) = operator_kinds(c)->0;
        if start + 1 < src.len() && src[start + 1] == '=' {
            lexeme_token(src, with_equal, start, start + 2, line)
        } else {
            lexeme_token(src, alone, start, start + 1, line)
        }
    } else if punctuation_kind(c) is Some {
        lexeme_token(src, punctuation_kind(c)->0, start, start + 1, line)
    } else {
        Scanned {
            token: TokenView { kind: TokenType::Error, lexeme: "Unexpected character."@, line },
            current: start + 1,
            line,
        }
    }
}

/// What one call of `scan_token` does at place `pos` and line `line`: white
/// space and comments are passed over, then one token is read. At the end of
/// the source the token is `EOF`, with an empty lexeme.
pub open spec fn scan(src: Seq<char>, pos: int, line: u32) -> Scanned {
    let (start, line) = skip_trivia(src, pos, line, false);
    if start >= src.len() {
        Scanned {
            token: TokenView { kind: TokenType::EOF, lexeme: Seq::empty(), line },
            current: start,
            line,
        }
    } else {
        scan_at(src, start, line)
    }
}


/// The first `"` from `pos` on lies at or after `pos`, and within the source.
proof fn lemma_quote_pos_bounds(src: Seq<char>, pos: int)
    requires
        0 <= pos <= src.len(),
    ensures
        pos <= quote_pos(src, pos) <= src.len(),
    decreases src.len() - pos,
{
    if pos < src.len() && src[pos] != '"' {
        lemma_quote_pos_bounds(src, pos + 1);
    }
}

proof fn lemma_digits_end_bounds(src: Seq<char>, pos: int)
    requires
        0 <= pos <= src.len(),
    ensures
        pos <= digits_end(src, pos) <= src.len(),
    decreases src.len() - pos,
{
    if pos < src.len() && is_digit(src[pos]) {
        lemma_digits_end_bounds(src, pos + 1);
    }
}

proof fn lemma_word_end_bounds(src: Seq<char>, pos: int)
    requires
        0 <= pos <= src.len(),
    ensures
        pos <= word_end(src, pos) <= src.len(),
    decreases src.len() - pos,
{
    if pos < src.len() && is_alpha(src[pos]) {
        lemma_word_end_bounds(src, pos + 1);
    }
}

/// Passing over white space and comments moves forward, and stays within the
/// source.
pub proof fn lemma_skip_trivia_bounds(src: Seq<char>, pos: int, line: u32, in_comment: bool)
    requires
        0 <= pos <= src.len(),
    ensures
        pos <= skip_trivia(src, pos, line, in_comment).0 <= src.len(),
    decreases src.len() - pos,
{
    if pos < src.len() {
        if src[pos] == '\n' {
            lemma_skip_trivia_bounds(src, pos + 1, bump_line(line), false);
        } else if in_comment || is_blank(src[pos]) {
            lemma_skip_trivia_bounds(src, pos + 1, line, in_comment);
        } else if src[pos] == '/' && pos + 1 < src.len() && src[pos + 1] == '/' {
            lemma_skip_trivia_bounds(src, pos + 2, line, true);
        }
    }
}

/// One step of scanning stays within the source; it moves forward unless the
/// token is `EOF`, and then it stands at the end.
pub proof fn lemma_scan_advances(src: Seq<char>, pos: int, line: u32)
    requires
        0 <= pos <= src.len(),
    ensures
        pos <= scan(src, pos, line).current <= src.len(),
        scan(src, pos, line).token.kind != TokenType::EOF ==> pos < scan(src, pos, line).current,
        scan(src, pos, line).token.kind == TokenType::EOF ==> scan(src, pos, line).current
            == src.len(),
{
    lemma_skip_trivia_bounds(src, pos, line, false);
    let (start, _) = skip_trivia(src, pos, line, false);
    if start < src.len() {
        lemma_digits_end_bounds(src, start + 1);
        let whole = digits_end(src, start + 1);
        if whole + 1 < src.len() {
            lemma_digits_end_bounds(src, whole + 2);
        }
        lemma_word_end_bounds(src, start + 1);
        lemma_quote_pos_bounds(src, start + 1);
    }
}

/// The tokens that repeated scanning yields from place `pos` and line `line`
/// on, up to and with the first `EOF`.
pub open spec fn tokens_from(src: Seq<char>, pos: int, line: u32) -> Seq<TokenView>
    decreases src.len() - pos,
    when 0 <= pos <= src.len()
{
    let step = scan(src, pos, line);
    if step.token.kind == TokenType::EOF {
        seq![step.token]
    } else {
        proof {
            lemma_scan_advances(src, pos, line);
        }
        seq![step.token] + tokens_from(src, step.current, step.line)
    }
}

/// The values of a sequence of tokens.
pub open spec fn token_views(tokens: Seq<Token>) -> Seq<TokenView> {
    tokens.map_values(|t: Token| t@)
}

/// Once scanning has yielded `EOF`, scanning again from where it then stands
/// yields the same `EOF` and does not move.
pub proof fn lemma_eof_repeats(src: Seq<char>, pos: int, line: u32)
    requires
        0 <= pos <= src.len(),
        scan(src, pos, line).token.kind == TokenType::EOF,
    ensures
        scan(src, scan(src, pos, line).current, scan(src, pos, line).line) == scan(src, pos, line),
{
    lemma_skip_trivia_bounds(src, pos, line, false);
}

/// The character at `pos`, or NUL past the end.
pub open spec fn char_at(src: Seq<char>, pos: int) -> char {
    if 0 <= pos < src.len() {
        src[pos]
    } else {
        '\0'
    }
}

/// The scanner: the source text, which is ASCII, the place of the next
/// character to read, and the current line.
pub struct Scanner {
    source: String,
    current: usize,
    start: usize,
    line: u32,
}

/// The mathematical value of a [`Scanner`].
pub struct ScannerView {
    pub source: Seq<char>,
    pub current: int,
    pub line: u32,
}

impl ScannerView {
    pub open spec fn wf(self) -> bool {
        is_ascii_chars(self.source) && 0 <= self.current <= self.source.len() <= usize::MAX
    }
}

impl View for Scanner {
    type V = ScannerView;

    closed spec fn view(&self) -> ScannerView {
        ScannerView { source: self.source@, current: self.current as int, line: self.line }
    }
}

fn digit(c: char) -> (r: bool)
    ensures
        r == is_digit(c),
{
    '0' <= c && c <= '9'
}

fn alpha(c: char) -> (r: bool)
    ensures
        r == is_alpha(c),
{
    ('a' <= c && c <= 'z') || ('A' <= c && c <= 'Z') || c == '_'
}

fn blank(c: char) -> (r: bool)
    ensures
        r == is_blank(c),
{
    c == ' ' || c == '\t' || c == '\r' || c == '\x0C'
}

/// The number of characters of an ASCII string.
pub(crate) fn text_len(text: &str) -> (n: usize)
    requires
        is_ascii(text),
    ensures
        n == text@.len(),
{
    proof {
        is_ascii_spec_bytes(text);
    }
    text.as_bytes().len()
}

/// Whether two ASCII strings hold the same characters.
fn same_text(a: &str, b: &str) -> (same: bool)
    requires
        is_ascii(a),
        is_ascii(b),
    ensures
        same == (a@ == b@),
{
    let n: usize = text_len(a);
    if n != text_len(b) {
        return false;
    }
    let mut i: usize = 0;
    while i < n
        invariant
            is_ascii(a),
            is_ascii(b),
            n == a@.len(),
            n == b@.len(),
            i <= n,
            forall|j: int| 0 <= j < i ==> a@[j] == b@[j],
        decreases n - i,
    {
        if a.get_ascii(i) != b.get_ascii(i) {
            return false;
        }
        i += 1;
    }
    assert(a@ =~= b@);
    true
}

impl TokenType {
    /// The kind of the word `text`: a keyword's kind, else `Identifier`.
    pub fn from_word(text: &str) -> (kind: TokenType)
        requires
            is_ascii(text),
        ensures
            kind == word_kind(text@),
    {
        proof {
            reveal_strlit("and");
            reveal_strlit("class");
            reveal_strlit("else");
            reveal_strlit("false");
            reveal_strlit("for");
            reveal_strlit("fun");
            reveal_strlit("if");
            reveal_strlit("nil");
            reveal_strlit("or");
            reveal_strlit("print");
            reveal_strlit("return");
            reveal_strlit("super");
            reveal_strlit("this");
            reveal_strlit("true");
            reveal_strlit("var");
            reveal_strlit("while");
        }
        if same_text(text, "and") {
            TokenType::And
        } else if same_text(text, "class") {
            TokenType::Class
        } else if same_text(text, "else") {
            TokenType::Else
        } else if same_text(text, "false") {
            TokenType::False
        } else if same_text(text, "for") {
            TokenType::For
        } else if same_text(text, "fun") {
            TokenType::Fun
        } else if same_text(text, "if") {
            TokenType::If
        } else if same_text(text, "nil") {
            TokenType::Nil
        } else if same_text(text, "or") {
            TokenType::Or
        } else if same_text(text, "print") {
            TokenType::Print
        } else if same_text(text, "return") {
            TokenType::Return
        } else if same_text(text, "super") {
            TokenType::Super
        } else if same_text(text, "this") {
            TokenType::This
        } else if same_text(text, "true") {
            TokenType::True
        } else if same_text(text, "var") {
            TokenType::Var
        } else if same_text(text, "while") {
            TokenType::While
        } else {
            TokenType::Identifier
        }
    }
}

impl Scanner {
    #[verifier::type_invariant]
    spec fn inv(&self) -> bool {
        self@.wf() && self.start <= self.current
    }

    /// A scanner at the start of `source`, on line 1.
    pub fn init(source: String) -> (scanner: Scanner)
        requires
            is_ascii_chars(source@),
        ensures
            scanner@ == (ScannerView { source: source@, current: 0, line: 1 }),
            scanner@.wf(),
    {
        let _ = text_len(source.as_str());
        Scanner { source, current: 0, start: 0, line: 1 }
    }

    /// Reads the tokens that are left, up to and with the first `EOF`.
    pub fn scan(&mut self) -> (tokens: Vec<Token>)
        ensures
            final(self)@.source == old(self)@.source,
            final(self)@.wf(),
            final(self)@.current == old(self)@.source.len(),
            token_views(tokens@) == tokens_from(
                old(self)@.source,
                old(self)@.current,
                old(self)@.line,
            ),
    {
        let mut tokens: Vec<Token> = Vec::new();
        proof {
            use_type_invariant(&*self);
            assert(token_views(tokens@) =~= Seq::<TokenView>::empty());
        }
        loop
            invariant
                self@.source == old(self)@.source,
                self@.wf(),
                token_views(tokens@) + tokens_from(self@.source, self@.current, self@.line)
                    == tokens_from(old(self)@.source, old(self)@.current, old(self)@.line),
            decreases self@.source.len() - self@.current,
        {
            let ghost before = self@;
            let ghost seen = tokens@;
            let token = self.scan_token();
            let at_end = token.token_type == TokenType::EOF;
            proof {
                lemma_scan_advances(before.source, before.current, before.line);
                assert(token_views(seen.push(token)) =~= token_views(seen) + seq![token@]);
            }
            tokens.push(token);
            if at_end {
                proof {
                    assert(token_views(tokens@) =~= token_views(seen) + tokens_from(
                        before.source,
                        before.current,
                        before.line,
                    ));
                }
                return tokens;
            }
            proof {
                assert(token_views(tokens@) + tokens_from(self@.source, self@.current, self@.line)
                    =~= token_views(seen) + tokens_from(
                    before.source,
                    before.current,
                    before.line,
                ));
            }
        }
    }

    /// Reads the next token. See [`scan`].
    pub fn scan_token(&mut self) -> (token: Token)
        ensures
            final(self)@.source == old(self)@.source,
            final(self)@.wf(),
            token@ == scan(old(self)@.source, old(self)@.current, old(self)@.line).token,
            final(self)@.current == scan(
                old(self)@.source,
                old(self)@.current,
                old(self)@.line,
            ).current,
            final(self)@.line == scan(old(self)@.source, old(self)@.current, old(self)@.line).line,
    {
        self.skip_whitespace();
        proof {
            use_type_invariant(&*self);
        }
        self.start = self.current;
        if self.is_at_end() {
            let token = self.make_token(TokenType::EOF);
            assert(token@.lexeme =~= Seq::<char>::empty());
            return token;
        }
        let c = self.advance();
        let token = if digit(c) {
            self.number()
        } else if alpha(c) {
            self.identifier()
        } else if c == '"' {
            self.string()
        } else if c == '!' {
            let kind = if self.peek_match('=') {
                TokenType::BangEqual
            } else {
                TokenType::Bang
            };
            self.make_token(kind)
        } else if c == '=' {
            let kind = if self.peek_match('=') {
                TokenType::EqualEqual
            } else {
                TokenType::Equal
            };
            self.make_token(kind)
        } else if c == '<' {
            let kind = if self.peek_match('=') {
                TokenType::LessEqual
            } else {
                TokenType::Less
            };
            self.make_token(kind)
        } else if c == '>' {
            let kind = if self.peek_match('=') {
                TokenType::GreaterEqual
            } else {
                TokenType::Greater
            };
            self.make_token(kind)
        } else if c == '(' {
            self.make_token(TokenType::LeftParen)
        } else if c == ')' {
            self.make_token(TokenType::RightParen)
        } else if c == '{' {
            self.make_token(TokenType::LeftBrace)
        } else if c == '}' {
            self.make_token(TokenType::RightBrace)
        } else if c == ';' {
            self.make_token(TokenType::Semicolon)
        } else if c == '.' {
            self.make_token(TokenType::Dot)
        } else if c == ',' {
            self.make_token(TokenType::Comma)
        } else if c == '-' {
            self.make_token(TokenType::Minus)
        } else if c == '+' {
            self.make_token(TokenType::Plus)
        } else if c == '/' {
            self.make_token(TokenType::Slash)
        } else if c == '*' {
            self.make_token(TokenType::Star)
        } else {
            self.error_token("Unexpected character.")
        };
        proof {
            use_type_invariant(&*self);
        }
        token
    }

    fn length(&self) -> (n: usize)
        ensures
            n == self.source@.len(),
    {
        proof {
            use_type_invariant(self);
        }
        text_len(self.source.as_str())
    }

    fn advance(&mut self) -> (c: char)
        requires
            old(self).current < old(self).source@.len(),
        ensures
            final(self).source == old(self).source,
            final(self).start == old(self).start,
            final(self).line == old(self).line,
            final(self).current == old(self).current + 1,
            c == old(self).source@[old(self).current as int],
    {
        let c = self.peek();
        proof {
            use_type_invariant(&*self);
        }
        self.current += 1;
        c
    }

    fn peek(&self) -> (c: char)
        ensures
            c == char_at(self.source@, self.current as int),
    {
        proof {
            use_type_invariant(self);
        }
        if !self.is_at_end() {
            self.source.as_str().get_ascii(self.current) as char
        } else {
            '\0'
        }
    }

    fn peek_next(&self) -> (c: char)
        ensures
            c == char_at(self.source@, self.current + 1),
    {
        proof {
            use_type_invariant(self);
        }
        if self.current < self.length() && self.current + 1 < self.length() {
            self.source.as_str().get_ascii(self.current + 1) as char
        } else {
            '\0'
        }
    }

    fn is_at_end(&self) -> (at_end: bool)
        ensures
            at_end == (self.current >= self.source@.len()),
    {
        self.current >= self.length()
    }

    fn peek_match(&mut self, c: char) -> (matched: bool)
        requires
            c != '\0',
        ensures
            final(self).source == old(self).source,
            final(self).start == old(self).start,
            final(self).line == old(self).line,
            matched == (char_at(old(self).source@, old(self).current as int) == c),
            final(self).current == if matched {
                old(self).current + 1
            } else {
                old(self).current as int
            },
    {
        if c == self.peek() {
            proof {
                use_type_invariant(&*self);
            }
            self.current += 1;
            true
        } else {
            false
        }
    }

    fn make_token(&self, token_type: TokenType) -> (token: Token)
        ensures
            token@ == (TokenView {
                kind: token_type,
                lexeme: self.source@.subrange(self.start as int, self.current as int),
                line: self.line,
            }),
    {
        proof {
            use_type_invariant(self);
        }
        Token {
            token_type,
            source: self.source.as_str().substring_ascii(self.start, self.current).to_owned(),
            line: self.line,
        }
    }

    fn make_string_token(&self) -> (token: Token)
        requires
            self.start + 2 <= self.current,
        ensures
            token@ == (TokenView {
                kind: TokenType::String,
                lexeme: self.source@.subrange(self.start + 1, self.current - 1),
                line: self.line,
            }),
    {
        proof {
            use_type_invariant(self);
        }
        Token {
            token_type: TokenType::String,
            source: self.source.as_str().substring_ascii(
                self.start + 1,
                self.current - 1,
            ).to_owned(),
            line: self.line,
        }
    }

    fn error_token(&self, message: &str) -> (token: Token)
        ensures
            token@ == (TokenView { kind: TokenType::Error, lexeme: message@, line: self.line }),
    {
        Token { token_type: TokenType::Error, source: message.to_owned(), line: self.line }
    }

    fn skip_whitespace(&mut self)
        ensures
            final(self).source == old(self).source,
            (final(self).current as int, final(self).line) == skip_trivia(
                old(self).source@,
                old(self).current as int,
                old(self).line,
                false,
            ),
    {
        let mut in_comment = false;
        loop
            invariant
                self.source == old(self).source,
                skip_trivia(self.source@, self.current as int, self.line, in_comment)
                    == skip_trivia(
                    old(self).source@,
                    old(self).current as int,
                    old(self).line,
                    false,
                ),
            decreases self.source@.len() - self.current,
        {
            proof {
                use_type_invariant(&*self);
            }
            if self.is_at_end() {
                return ;
            }
            let c = self.peek();
            if c == '\n' {
                if self.line < u32::MAX {
                    self.line += 1;
                }
                self.current += 1;
                in_comment = false;
            } else if in_comment || blank(c) {
                self.current += 1;
            } else if c == '/' && self.peek_next() == '/' {
                self.current += 2;
                in_comment = true;
            } else {
                return ;
            }
        }
    }

    fn string(&mut self) -> (token: Token)
        requires
            old(self).current == old(self).start + 1,
        ensures
            final(self).source == old(self).source,
            ({
                let src = old(self).source@;
                let start = old(self).start as int;
                let close = quote_pos(src, start + 1);
                let last_line = line_after(src, start + 1, close, old(self).line);
                &&& final(self).line == last_line
                &&& token@.line == last_line
                &&& close >= src.len() ==> final(self).current == close && token@.kind
                    == TokenType::Error && token@.lexeme == "Unterminated string literal."@
                &&& close < src.len() ==> final(self).current == close + 1 && token@.kind
                    == TokenType::String && token@.lexeme == src.subrange(start + 1, close)
            }),
    {
        let ghost close = quote_pos(self.source@, self.start + 1);
        proof {
            use_type_invariant(&*self);
            lemma_quote_pos_bounds(self.source@, self.start + 1);
        }
        loop
            invariant
                self.source == old(self).source,
                self.start == old(self).start,
                self.start + 1 <= self.current <= close,
                close == quote_pos(self.source@, self.start + 1),
                quote_pos(self.source@, self.current as int) == close,
                line_after(self.source@, self.current as int, close, self.line) == line_after(
                    self.source@,
                    self.start + 1,
                    close,
                    old(self).line,
                ),
            decreases self.source@.len() - self.current,
        {
            proof {
                use_type_invariant(&*self);
            }
            if self.is_at_end() {
                return self.error_token("Unterminated string literal.");
            }
            let c = self.peek();
            if c == '"' {
                self.current += 1;
                return self.make_string_token();
            }
            proof {
                lemma_quote_pos_bounds(self.source@, self.current + 1);
            }
            if c == '\n' && self.line < u32::MAX {
                self.line += 1;
            }
            self.current += 1;
        }
    }

    fn number(&mut self) -> (token: Token)
        requires
            old(self).current == old(self).start + 1,
        ensures
            final(self).source == old(self).source,
            final(self).line == old(self).line,
            final(self).current == number_end(old(self).source@, old(self).start as int),
            token@ == (TokenView {
                kind: TokenType::Number,
                lexeme: old(self).source@.subrange(
                    old(self).start as int,
                    number_end(old(self).source@, old(self).start as int),
                ),
                line: old(self).line,
            }),
    {
        self.skip_digits();
        if self.peek() == '.' && digit(self.peek_next()) {
            proof {
                use_type_invariant(&*self);
            }
            self.current += 2;
            self.skip_digits();
        }
        self.make_token(TokenType::Number)
    }

    fn skip_digits(&mut self)
        ensures
            final(self).source == old(self).source,
            final(self).line == old(self).line,
            final(self).start == old(self).start,
            final(self).current == digits_end(old(self).source@, old(self).current as int),
    {
        loop
            invariant
                self.source == old(self).source,
                self.line == old(self).line,
                self.start == old(self).start,
                digits_end(self.source@, self.current as int) == digits_end(
                    self.source@,
                    old(self).current as int,
                ),
            decreases self.source@.len() - self.current,
        {
            proof {
                use_type_invariant(&*self);
            }
            if self.is_at_end() || !digit(self.peek()) {
                return ;
            }
            self.current += 1;
        }
    }

    fn identifier(&mut self) -> (token: Token)
        requires
            old(self).current == old(self).start + 1,
        ensures
            final(self).source == old(self).source,
            final(self).line == old(self).line,
            final(self).current == word_end(old(self).source@, old(self).start + 1),
            token@ == (TokenView {
                kind: word_kind(
                    old(self).source@.subrange(
                        old(self).start as int,
                        word_end(old(self).source@, old(self).start + 1),
                    ),
                ),
                lexeme: old(self).source@.subrange(
                    old(self).start as int,
                    word_end(old(self).source@, old(self).start + 1),
                ),
                line: old(self).line,
            }),
    {
        loop
            invariant_except_break
                self.source == old(self).source,
                self.line == old(self).line,
                self.start == old(self).start,
                self.start < self.current,
                word_end(self.source@, self.current as int) == word_end(
                    self.source@,
                    old(self).current as int,
                ),
            ensures
                self.source == old(self).source,
                self.line == old(self).line,
                self.start == old(self).start,
                self.current == word_end(self.source@, old(self).current as int),
            decreases self.source@.len() - self.current,
        {
            proof {
                use_type_invariant(&*self);
            }
            if self.is_at_end() || !alpha(self.peek()) {
                break ;
            }
            self.current += 1;
        }
        proof {
            use_type_invariant(&*self);
        }
        let kind = TokenType::from_word(
            self.source.as_str().substring_ascii(self.start, self.current),
        );
        self.make_token(kind)
    }
}


/// A step of scanning with its place moved forward by `by`.
pub open spec fn shifted(step: Scanned, by: int) -> Scanned {
    Scanned { current: step.current + by, ..step }
}

proof fn lemma_skip_trivia_suffix(src: Seq<char>, n: int, p: int, line: u32, in_comment: bool)
    requires
        0 <= n <= src.len(),
        0 <= p <= src.len() - n,
    ensures
        skip_trivia(src, n + p, line, in_comment).0 == n + skip_trivia(
            src.skip(n),
            p,
            line,
            in_comment,
        ).0,
        skip_trivia(src, n + p, line, in_comment).1 == skip_trivia(
            src.skip(n),
            p,
            line,
            in_comment,
        ).1,
    decreases src.len() - n - p,
{
    let tail = src.skip(n);
    if p < tail.len() {
        assert(tail[p] == src[n + p]);
        if src[n + p] == '\n' {
            lemma_skip_trivia_suffix(src, n, p + 1, bump_line(line), false);
        } else if in_comment || is_blank(src[n + p]) {
            lemma_skip_trivia_suffix(src, n, p + 1, line, in_comment);
        } else if src[n + p] == '/' && p + 1 < tail.len() {
            assert(tail[p + 1] == src[n + p + 1]);
            if src[n + p + 1] == '/' {
                lemma_skip_trivia_suffix(src, n, p + 2, line, true);
            }
        }
    }
}

proof fn lemma_digits_end_suffix(src: Seq<char>, n: int, p: int)
    requires
        0 <= n <= src.len(),
        0 <= p <= src.len() - n,
    ensures
        digits_end(src, n + p) == n + digits_end(src.skip(n), p),
    decreases src.len() - n - p,
{
    let tail = src.skip(n);
    if p < tail.len() {
        assert(tail[p] == src[n + p]);
        if is_digit(src[n + p]) {
            lemma_digits_end_suffix(src, n, p + 1);
        }
    }
}

proof fn lemma_word_end_suffix(src: Seq<char>, n: int, p: int)
    requires
        0 <= n <= src.len(),
        0 <= p <= src.len() - n,
    ensures
        word_end(src, n + p) == n + word_end(src.skip(n), p),
    decreases src.len() - n - p,
{
    let tail = src.skip(n);
    if p < tail.len() {
        assert(tail[p] == src[n + p]);
        if is_alpha(src[n + p]) {
            lemma_word_end_suffix(src, n, p + 1);
        }
    }
}

proof fn lemma_quote_pos_suffix(src: Seq<char>, n: int, p: int)
    requires
        0 <= n <= src.len(),
        0 <= p <= src.len() - n,
    ensures
        quote_pos(src, n + p) == n + quote_pos(src.skip(n), p),
    decreases src.len() - n - p,
{
    let tail = src.skip(n);
    if p < tail.len() {
        assert(tail[p] == src[n + p]);
        if src[n + p] != '"' {
            lemma_quote_pos_suffix(src, n, p + 1);
        }
    }
}

proof fn lemma_line_after_suffix(src: Seq<char>, n: int, from: int, to: int, line: u32)
    requires
        0 <= n <= src.len(),
        0 <= from,
        to <= src.len() - n,
    ensures
        line_after(src, n + from, n + to, line) == line_after(src.skip(n), from, to, line),
    decreases to - from,
{
    let tail = src.skip(n);
    if from < to {
        assert(tail[from] == src[n + from]);
        lemma_line_after_suffix(
            src,
            n,
            from + 1,
            to,
            if src[n + from] == '\n' {
                bump_line(line)
            } else {
                line
            },
        );
    }
}

/// A step of scanning depends only on what lies ahead: from place `n + p`
/// of a source it yields the token that it yields from place `p` of the
/// source without its first `n` characters, and ends `n` places later.
pub proof fn lemma_scan_suffix(src: Seq<char>, n: int, p: int, line: u32)
    requires
        0 <= n <= src.len(),
        0 <= p <= src.len() - n,
    ensures
        scan(src, n + p, line) == shifted(scan(src.skip(n), p, line), n),
{
    let tail = src.skip(n);
    lemma_skip_trivia_suffix(src, n, p, line, false);
    lemma_skip_trivia_bounds(tail, p, line, false);
    let (start, at) = skip_trivia(tail, p, line, false);
    if start < tail.len() {
        assert(tail[start] == src[n + start]);
        lemma_digits_end_suffix(src, n, start + 1);
        lemma_digits_end_bounds(tail, start + 1);
        let whole = digits_end(tail, start + 1);
        if whole + 1 < tail.len() {
            assert(tail[whole] == src[n + whole]);
            assert(tail[whole + 1] == src[n + whole + 1]);
            lemma_digits_end_suffix(src, n, whole + 2);
            lemma_digits_end_bounds(tail, whole + 2);
        }
        assert(src.subrange(n + start, n + number_end(tail, start)) =~= tail.subrange(
            start,
            number_end(tail, start),
        ));
        lemma_word_end_suffix(src, n, start + 1);
        lemma_word_end_bounds(tail, start + 1);
        assert(src.subrange(n + start, n + word_end(tail, start + 1)) =~= tail.subrange(
            start,
            word_end(tail, start + 1),
        ));
        lemma_quote_pos_suffix(src, n, start + 1);
        lemma_quote_pos_bounds(tail, start + 1);
        let close = quote_pos(tail, start + 1);
        lemma_line_after_suffix(src, n, start + 1, close, at);
        assert(src.subrange(n + start + 1, n + close) =~= tail.subrange(start + 1, close));
        if start + 1 < tail.len() {
            assert(tail[start + 1] == src[n + start + 1]);
            assert(src.subrange(n + start, n + start + 2) =~= tail.subrange(start, start + 2));
        }
        assert(src.subrange(n + start, n + start + 1) =~= tail.subrange(start, start + 1));
    }
}

/// The tokens from place `n + p` of a source on are those from place `p` on
/// of the source without its first `n` characters.
pub proof fn lemma_tokens_suffix(src: Seq<char>, n: int, p: int, line: u32)
    requires
        0 <= n <= src.len(),
        0 <= p <= src.len() - n,
    ensures
        tokens_from(src, n + p, line) == tokens_from(src.skip(n), p, line),
    decreases src.len() - n - p,
{
    let tail = src.skip(n);
    lemma_scan_suffix(src, n, p, line);
    lemma_scan_advances(tail, p, line);
    let step = scan(tail, p, line);
    if step.token.kind != TokenType::EOF {
        lemma_tokens_suffix(src, n, step.current, step.line);
    }
}

/// Whether no token spans the boundary between `a` and `b` when the two are
/// joined: scanning the joined source from place `pos` of `a` on finds each
/// token of `a` as scanning `a` alone finds it, and after the last of them
/// the first token of `b` as scanning `b` alone finds it.
pub open spec fn no_token_spans(a: Seq<char>, b: Seq<char>, pos: int, line: u32) -> bool
    decreases a.len() - pos,
    when 0 <= pos <= a.len()
{
    let alone = scan(a, pos, line);
    let joined = scan(a + b, pos, line);
    if alone.token.kind == TokenType::EOF {
        joined == shifted(scan(b, 0, alone.line), a.len() as int)
    } else {
        proof {
            lemma_scan_advances(a, pos, line);
        }
        joined == alone && no_token_spans(a, b, alone.current, alone.line)
    }
}

/// The line on which scanning from place `pos` and line `line` ends.
pub open spec fn last_line(src: Seq<char>, pos: int, line: u32) -> u32 {
    tokens_from(src, pos, line).last().line
}

/// The tokens from a place on: the token that the next step of scanning
/// yields, and after a token that is not `EOF` the tokens from where that
/// step ends.
proof fn lemma_tokens_unfold(src: Seq<char>, pos: int, line: u32)
    requires
        0 <= pos <= src.len(),
    ensures
        scan(src, pos, line).token.kind == TokenType::EOF ==> tokens_from(src, pos, line)
            == seq![scan(src, pos, line).token],
        scan(src, pos, line).token.kind != TokenType::EOF ==> tokens_from(src, pos, line)
            == seq![scan(src, pos, line).token] + tokens_from(
            src,
            scan(src, pos, line).current,
            scan(src, pos, line).line,
        ),
{
    lemma_scan_advances(src, pos, line);
}

proof fn lemma_join_after_first(first: TokenView, rest: Seq<TokenView>, tail: Seq<TokenView>)
    requires
        rest.len() >= 1,
    ensures
        (seq![first] + rest).drop_last() + tail == seq![first] + (rest.drop_last() + tail),
{
    assert((seq![first] + rest).drop_last() =~= seq![first] + rest.drop_last());
    assert((seq![first] + rest.drop_last()) + tail =~= seq![first] + (rest.drop_last() + tail));
}

proof fn lemma_join_at_end(only: TokenView, tail: Seq<TokenView>)
    ensures
        seq![only].drop_last() + tail == tail,
{
    assert(seq![only].drop_last() + tail =~= tail);
}

/// Scanning two sources joined, with no token spanning the boundary, yields
/// the tokens of the first without its `EOF` and then the tokens of the
/// second, the second scanned from the line on which the first ends.
pub proof fn lemma_scan_joined(a: Seq<char>, b: Seq<char>, pos: int, line: u32)
    requires
        0 <= pos <= a.len(),
        no_token_spans(a, b, pos, line),
    ensures
        tokens_from(a + b, pos, line) == tokens_from(a, pos, line).drop_last() + tokens_from(
            b,
            0,
            last_line(a, pos, line),
        ),
    decreases a.len() - pos,
{
    let joined = a + b;
    let n = a.len() as int;
    let alone = scan(a, pos, line);
    let both = scan(joined, pos, line);
    lemma_scan_advances(a, pos, line);
    lemma_tokens_unfold(a, pos, line);
    lemma_tokens_unfold(joined, pos, line);
    if alone.token.kind == TokenType::EOF {
        let next = scan(b, 0, alone.line);
        assert(both == shifted(next, n));
        lemma_scan_advances(b, 0, alone.line);
        lemma_tokens_unfold(b, 0, alone.line);
        assert(tokens_from(joined, pos, line) == tokens_from(b, 0, alone.line)) by {
            if next.token.kind != TokenType::EOF {
                assert(joined.skip(n) =~= b);
                lemma_tokens_suffix(joined, n, next.current, next.line);
            }
        }
        lemma_join_at_end(alone.token, tokens_from(b, 0, alone.line));
    } else {
        assert(both == alone);
        assert(no_token_spans(a, b, alone.current, alone.line));
        lemma_scan_joined(a, b, alone.current, alone.line);
        lemma_tokens_end(a, alone.current, alone.line);
        lemma_join_after_first(
            alone.token,
            tokens_from(a, alone.current, alone.line),
            tokens_from(b, 0, last_line(a, alone.current, alone.line)),
        );
    }
}

/// The tokens of a source end with `EOF`, and no token before is `EOF`.
pub proof fn lemma_tokens_end(src: Seq<char>, pos: int, line: u32)
    requires
        0 <= pos <= src.len(),
    ensures
        tokens_from(src, pos, line).len() >= 1,
        tokens_from(src, pos, line).last().kind == TokenType::EOF,
        forall|i: int|
            0 <= i < tokens_from(src, pos, line).len() - 1 ==> (#[trigger] tokens_from(
                src,
                pos,
                line,
            )[i]).kind != TokenType::EOF,
    decreases src.len() - pos,
{
    let step = scan(src, pos, line);
    lemma_scan_advances(src, pos, line);
    if step.token.kind != TokenType::EOF {
        lemma_tokens_end(src, step.current, step.line);
        let rest = tokens_from(src, step.current, step.line);
        let all = tokens_from(src, pos, line);
        assert(all == seq![step.token] + rest);
        assert forall|i: int| 0 <= i < all.len() - 1 implies (#[trigger] all[i]).kind
            != TokenType::EOF by {
            if i > 0 {
                assert(all[i] == rest[i - 1]);
            }
        }
    }
}


/// The kinds and lexemes of a sequence of tokens, without their lines.
pub open spec fn bare(tokens: Seq<TokenView>) -> Seq<(TokenType, Seq<char>)> {
    tokens.map_values(|t: TokenView| (t.kind, t.lexeme))
}

proof fn lemma_skip_trivia_any_line(src: Seq<char>, pos: int, one: u32, other: u32, in_comment: bool)
    ensures
        skip_trivia(src, pos, one, in_comment).0 == skip_trivia(src, pos, other, in_comment).0,
    decreases src.len() - pos,
{
    if 0 <= pos < src.len() {
        if src[pos] == '\n' {
            lemma_skip_trivia_any_line(src, pos + 1, bump_line(one), bump_line(other), false);
        } else if in_comment || is_blank(src[pos]) {
            lemma_skip_trivia_any_line(src, pos + 1, one, other, in_comment);
        } else if src[pos] == '/' && pos + 1 < src.len() && src[pos + 1] == '/' {
            lemma_skip_trivia_any_line(src, pos + 2, one, other, true);
        }
    }
}

/// The kinds and lexemes of the tokens of a source do not depend on the
/// line at which scanning starts.
pub proof fn lemma_tokens_any_line(src: Seq<char>, pos: int, one: u32, other: u32)
    requires
        0 <= pos <= src.len(),
    ensures
        bare(tokens_from(src, pos, one)) == bare(tokens_from(src, pos, other)),
    decreases src.len() - pos,
{
    lemma_skip_trivia_any_line(src, pos, one, other, false);
    lemma_scan_advances(src, pos, one);
    let first = scan(src, pos, one);
    let second = scan(src, pos, other);
    assert(first.token.kind == second.token.kind);
    assert(first.token.lexeme == second.token.lexeme);
    assert(first.current == second.current);
    if first.token.kind != TokenType::EOF {
        lemma_tokens_any_line(src, first.current, first.line, second.line);
        assert(bare(seq![first.token] + tokens_from(src, first.current, first.line)) =~= seq![
            (first.token.kind, first.token.lexeme),
        ] + bare(tokens_from(src, first.current, first.line)));
        assert(bare(seq![second.token] + tokens_from(src, second.current, second.line)) =~= seq![
            (second.token.kind, second.token.lexeme),
        ] + bare(tokens_from(src, second.current, second.line)));
    } else {
        assert(bare(seq![first.token]) =~= bare(seq![second.token]));
    }
}

/// Scanning two sources joined, with no token spanning the boundary, yields
/// the kinds and lexemes that scanning the first and then, from its start
/// again, the second yields, the `EOF` of the first left out.
pub proof fn lemma_scan_concatenation(a: Seq<char>, b: Seq<char>)
    requires
        no_token_spans(a, b, 0, 1),
    ensures
        bare(tokens_from(a + b, 0, 1)) == bare(tokens_from(a, 0, 1)).drop_last() + bare(
            tokens_from(b, 0, 1),
        ),
{
    lemma_scan_joined(a, b, 0, 1);
    lemma_tokens_any_line(b, 0, last_line(a, 0, 1), 1);
    lemma_tokens_end(a, 0, 1);
    let first = tokens_from(a, 0, 1);
    let second = tokens_from(b, 0, last_line(a, 0, 1));
    assert(bare(first.drop_last() + second) =~= bare(first).drop_last() + bare(second));
}


/// Whether a token is the error that a string without its closing quote
/// makes.
pub open spec fn is_open_string(token: TokenView) -> bool {
    token.kind == TokenType::Error && token.lexeme == "Unterminated string literal."@
}

proof fn lemma_skip_trivia_prefix(
    a: Seq<char>,
    b: Seq<char>,
    pos: int,
    line: u32,
    in_comment: bool,
)
    requires
        0 <= pos <= a.len(),
        a.len() > 0,
        a.last() == '\n',
        pos == a.len() ==> !in_comment,
    ensures
        skip_trivia(a + b, pos, line, in_comment) == if skip_trivia(a, pos, line, in_comment).0
            < a.len() {
            skip_trivia(a, pos, line, in_comment)
        } else {
            skip_trivia(a + b, a.len() as int, skip_trivia(a, pos, line, in_comment).1, false)
        },
    decreases a.len() - pos,
{
    let joined = a + b;
    if pos < a.len() {
        assert(joined[pos] == a[pos]);
        if a[pos] == '\n' {
            lemma_skip_trivia_prefix(a, b, pos + 1, bump_line(line), false);
        } else if in_comment || is_blank(a[pos]) {
            // The last character is a newline: a comment or a blank is not
            // the end of the source.
            lemma_skip_trivia_prefix(a, b, pos + 1, line, in_comment);
        } else if a[pos] == '/' {
            assert(joined[pos + 1] == a[pos + 1]);
            if a[pos + 1] == '/' {
                lemma_skip_trivia_prefix(a, b, pos + 2, line, true);
            }
        }
    }
}

proof fn lemma_digits_end_prefix(a: Seq<char>, b: Seq<char>, pos: int)
    requires
        0 <= pos <= a.len(),
        a.len() > 0,
        a.last() == '\n',
    ensures
        digits_end(a + b, pos) == digits_end(a, pos) || pos == a.len(),
        pos < a.len() ==> digits_end(a, pos) < a.len(),
    decreases a.len() - pos,
{
    if pos < a.len() {
        assert((a + b)[pos] == a[pos]);
        if is_digit(a[pos]) {
            lemma_digits_end_prefix(a, b, pos + 1);
        }
    }
}

proof fn lemma_word_end_prefix(a: Seq<char>, b: Seq<char>, pos: int)
    requires
        0 <= pos <= a.len(),
        a.len() > 0,
        a.last() == '\n',
    ensures
        word_end(a + b, pos) == word_end(a, pos) || pos == a.len(),
        pos < a.len() ==> word_end(a, pos) < a.len(),
    decreases a.len() - pos,
{
    if pos < a.len() {
        assert((a + b)[pos] == a[pos]);
        if is_alpha(a[pos]) {
            lemma_word_end_prefix(a, b, pos + 1);
        }
    }
}

proof fn lemma_quote_pos_prefix(a: Seq<char>, b: Seq<char>, pos: int)
    requires
        0 <= pos <= a.len(),
        quote_pos(a, pos) < a.len(),
    ensures
        quote_pos(a + b, pos) == quote_pos(a, pos),
    decreases a.len() - pos,
{
    if pos < a.len() {
        assert((a + b)[pos] == a[pos]);
        if a[pos] != '"' {
            lemma_quote_pos_prefix(a, b, pos + 1);
        }
    }
}

proof fn lemma_line_after_prefix(a: Seq<char>, b: Seq<char>, from: int, to: int, line: u32)
    requires
        0 <= from,
        to <= a.len(),
    ensures
        line_after(a + b, from, to, line) == line_after(a, from, to, line),
    decreases to - from,
{
    if from < to {
        assert((a + b)[from] == a[from]);
        lemma_line_after_prefix(
            a,
            b,
            from + 1,
            to,
            if a[from] == '\n' {
                bump_line(line)
            } else {
                line
            },
        );
    }
}

/// A token that starts within a source that ends with a newline is the
/// same when more text follows the source, unless it is a string without its
/// closing quote.
proof fn lemma_scan_at_prefix(a: Seq<char>, b: Seq<char>, start: int, line: u32)
    requires
        0 <= start < a.len(),
        a.last() == '\n',
        a[start] != '\n',
        !is_open_string(scan_at(a, start, line).token),
    ensures
        scan_at(a + b, start, line) == scan_at(a, start, line),
{
    let joined = a + b;
    assert(joined[start] == a[start]);
    assert(joined[start + 1] == a[start + 1]);
    lemma_digits_end_prefix(a, b, start + 1);
    lemma_digits_end_bounds(a, start + 1);
    let whole = digits_end(a, start + 1);
    if whole + 1 < a.len() {
        assert(joined[whole] == a[whole]);
        assert(joined[whole + 1] == a[whole + 1]);
        lemma_digits_end_prefix(a, b, whole + 2);
        lemma_digits_end_bounds(a, whole + 2);
    } else if whole < a.len() {
        assert(joined[whole] == a[whole]);
    }
    assert(joined.subrange(start, number_end(a, start)) =~= a.subrange(
        start,
        number_end(a, start),
    ));
    lemma_word_end_prefix(a, b, start + 1);
    lemma_word_end_bounds(a, start + 1);
    assert(joined.subrange(start, word_end(a, start + 1)) =~= a.subrange(
        start,
        word_end(a, start + 1),
    ));
    lemma_quote_pos_bounds(a, start + 1);
    let close = quote_pos(a, start + 1);
    if a[start] == '"' {
        assert(close < a.len());
        lemma_quote_pos_prefix(a, b, start + 1);
        lemma_line_after_prefix(a, b, start + 1, close, line);
        assert(joined.subrange(start + 1, close) =~= a.subrange(start + 1, close));
    }
    assert(joined.subrange(start, start + 2) =~= a.subrange(start, start + 2));
    assert(joined.subrange(start, start + 1) =~= a.subrange(start, start + 1));
}

/// No token spans the boundary after a source that ends with a newline and
/// holds no string without its closing quote.
pub proof fn lemma_newline_separates(a: Seq<char>, b: Seq<char>, pos: int, line: u32)
    requires
        0 <= pos <= a.len(),
        a.len() > 0,
        a.last() == '\n',
        forall|i: int|
            0 <= i < tokens_from(a, pos, line).len() ==> !is_open_string(
                #[trigger] tokens_from(a, pos, line)[i],
            ),
    ensures
        no_token_spans(a, b, pos, line),
    decreases a.len() - pos,
{
    let joined = a + b;
    let n = a.len() as int;
    lemma_skip_trivia_prefix(a, b, pos, line, false);
    lemma_skip_trivia_bounds(a, pos, line, false);
    lemma_scan_advances(a, pos, line);
    let (start, at) = skip_trivia(a, pos, line, false);
    let alone = scan(a, pos, line);
    let all = tokens_from(a, pos, line);
    assert(all[0] == alone.token);
    if alone.token.kind == TokenType::EOF {
        assert(joined.skip(n) =~= b);
        lemma_scan_suffix(joined, n, 0, at);
        lemma_skip_trivia_suffix(joined, n, 0, at, false);
    } else {
        lemma_skip_trivia_stops(a, pos, line, false);
        lemma_scan_at_prefix(a, b, start, at);
        let rest = tokens_from(a, alone.current, alone.line);
        assert forall|i: int| 0 <= i < rest.len() implies !is_open_string(#[trigger] rest[i]) by {
            assert(all[i + 1] == rest[i]);
        }
        lemma_newline_separates(a, b, alone.current, alone.line);
    }
}

/// Where passing over white space stops within the source, no newline
/// stands.
proof fn lemma_skip_trivia_stops(src: Seq<char>, pos: int, line: u32, in_comment: bool)
    requires
        0 <= pos <= src.len(),
    ensures
        skip_trivia(src, pos, line, in_comment).0 < src.len() ==> src[skip_trivia(
            src,
            pos,
            line,
            in_comment,
        ).0] != '\n',
    decreases src.len() - pos,
{
    if pos < src.len() {
        if src[pos] == '\n' {
            lemma_skip_trivia_stops(src, pos + 1, bump_line(line), false);
        } else if in_comment || is_blank(src[pos]) {
            lemma_skip_trivia_stops(src, pos + 1, line, in_comment);
        } else if src[pos] == '/' && pos + 1 < src.len() && src[pos + 1] == '/' {
            lemma_skip_trivia_stops(src, pos + 2, line, true);
        }
    }
}

/// Scanning two sources joined, the first ending with a newline and holding
/// no string without its closing quote, yields the kinds and lexemes that
/// scanning the first and then, from its start again, the second yields, the
/// `EOF` of the first left out.
pub proof fn lemma_scan_lines_joined(a: Seq<char>, b: Seq<char>)
    requires
        a.len() > 0,
        a.last() == '\n',
        forall|i: int|
            0 <= i < tokens_from(a, 0, 1).len() ==> !is_open_string(
                #[trigger] tokens_from(a, 0, 1)[i],
            ),
    ensures
        bare(tokens_from(a + b, 0, 1)) == bare(tokens_from(a, 0, 1)).drop_last() + bare(
            tokens_from(b, 0, 1),
        ),
{
    lemma_newline_separates(a, b, 0, 1);
    lemma_scan_concatenation(a, b);
}

} // verus!
