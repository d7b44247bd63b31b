//! The compiler: a single-pass Pratt parser that reads tokens from the
//! scanner and writes bytecode into a chunk, with no tree in between.
//!
//! The library converts no number literal itself. The caller converts the
//! literals of the source, in the order in which the scanner yields them, and
//! hands the results to the compiler: `Some` of the bits of a number, or `None`
//! for a literal that could not be converted.

use crate::chunk::{
    assemble, lemma_disassembly_round_trip, lemma_emit_op_lifts, lemma_emit_op_well_formed,
    lemma_extends_both, lemma_extension_keeps_instructions, lemma_lifts_both,
    lemma_lifts_nothing, lemma_lifts_weaken, lemma_long_index_bytes, lifts,
    long_index_bytes, Chunk, ChunkView, OpCode, MAX_LONG_INDEX, MAX_SHORT_INDEX,
};
use crate::heap::{
    lemma_allocation_keeps_roots, object_size, HeapView, ObjectHeap, HEAP_LIMIT,
};
use crate::scanner::{
    lemma_eof_repeats, lemma_scan_advances, lemma_tokens_end, scan, token_views, tokens_from,
    Scanner, ScannerView, Token, TokenType, TokenView,
};
use vstd::utf8::is_ascii_chars;
use crate::value::{protects, Value};
use vstd::prelude::*;

verus! {

/// The binding powers, from the weakest to the strongest.
#[derive(Copy, Clone, Debug, PartialEq, Eq, Structural)]
pub enum Precedence {
    /// The binding power of a token that is no operator.
    Lowest,
    Assignment,
    Or,
    And,
    Equality,
    Comparison,
    Term,
    Factor,
    Unary,
    Call,
    Primary,
}

impl Precedence {
    /// The place of the binding power on the ladder, `Lowest` being 0.
    pub open spec fn rank(self) -> int {
        match self {
            Precedence::Lowest => 0,
            Precedence::Assignment => 1,
            Precedence::Or => 2,
            Precedence::And => 3,
            Precedence::Equality => 4,
            Precedence::Comparison => 5,
            Precedence::Term => 6,
            Precedence::Factor => 7,
            Precedence::Unary => 8,
            Precedence::Call => 9,
            Precedence::Primary => 10,
        }
    }

    /// The next stronger binding power; `Primary` is the strongest.
    pub open spec fn stronger(self) -> Precedence {
        match self {
            Precedence::Lowest => Precedence::Assignment,
            Precedence::Assignment => Precedence::Or,
            Precedence::Or => Precedence::And,
            Precedence::And => Precedence::Equality,
            Precedence::Equality => Precedence::Comparison,
            Precedence::Comparison => Precedence::Term,
            Precedence::Term => Precedence::Factor,
            Precedence::Factor => Precedence::Unary,
            Precedence::Unary => Precedence::Call,
            Precedence::Call => Precedence::Primary,
            Precedence::Primary => Precedence::Primary,
        }
    }

    /// The place of the binding power on the ladder.
    pub fn level(self) -> (level: u8)
        ensures
            level == self.rank(),
    {
        match self {
            Precedence::Lowest => 0,
            Precedence::Assignment => 1,
            Precedence::Or => 2,
            Precedence::And => 3,
            Precedence::Equality => 4,
            Precedence::Comparison => 5,
            Precedence::Term => 6,
            Precedence::Factor => 7,
            Precedence::Unary => 8,
            Precedence::Call => 9,
            Precedence::Primary => 10,
        }
    }

    /// The next stronger binding power.
    pub fn next(self) -> (next: Precedence)
        ensures
            next == self.stronger(),
            next.rank() == if self.rank() < 10 {
                self.rank() + 1
            } else {
                10
            },
    {
        match self {
            Precedence::Lowest => Precedence::Assignment,
            Precedence::Assignment => Precedence::Or,
            Precedence::Or => Precedence::And,
            Precedence::And => Precedence::Equality,
            Precedence::Equality => Precedence::Comparison,
            Precedence::Comparison => Precedence::Term,
            Precedence::Term => Precedence::Factor,
            Precedence::Factor => Precedence::Unary,
            Precedence::Unary => Precedence::Call,
            Precedence::Call => Precedence::Primary,
            Precedence::Primary => Precedence::Primary,
        }
    }
}

/// What a token does at the start of an expression.
#[derive(Copy, Clone, Debug, PartialEq, Eq, Structural)]
pub enum PrefixRule {
    Grouping,
    Unary,
    Number,
    String,
    Literal,
}

/// What a token does after an operand.
#[derive(Copy, Clone, Debug, PartialEq, Eq, Structural)]
pub enum InfixRule {
    Binary,
}

/// The row of the parse table for a kind of token.
#[derive(Copy, Clone, Debug)]
pub struct ParseRule {
    pub prefix: Option<PrefixRule>,
    pub infix: Option<InfixRule>,
    pub precedence: Precedence,
}

/// The parse table.
pub open spec fn rule_of(kind: TokenType) -> ParseRule {
    match kind {
        TokenType::LeftParen => ParseRule {
            prefix: Some(PrefixRule::Grouping),
            infix: None,
            precedence: Precedence::Lowest,
        },
        TokenType::Minus => ParseRule {
            prefix: Some(PrefixRule::Unary),
            infix: Some(InfixRule::Binary),
            precedence: Precedence::Term,
        },
        TokenType::Plus => ParseRule {
            prefix: None,
            infix: Some(InfixRule::Binary),
            precedence: Precedence::Term,
        },
        TokenType::Slash | TokenType::Star => ParseRule {
            prefix: None,
            infix: Some(InfixRule::Binary),
            precedence: Precedence::Factor,
        },
        TokenType::Bang => ParseRule {
            prefix: Some(PrefixRule::Unary),
            infix: None,
            precedence: Precedence::Lowest,
        },
        TokenType::BangEqual | TokenType::EqualEqual => ParseRule {
            prefix: None,
            infix: Some(InfixRule::Binary),
            precedence: Precedence::Equality,
        },
        TokenType::Greater | TokenType::GreaterEqual | TokenType::Less | TokenType::LessEqual => ParseRule {
            prefix: None,
            infix: Some(InfixRule::Binary),
            precedence: Precedence::Comparison,
        },
        TokenType::String => ParseRule {
            prefix: Some(PrefixRule::String),
            infix: None,
            precedence: Precedence::Lowest,
        },
        TokenType::Number => ParseRule {
            prefix: Some(PrefixRule::Number),
            infix: None,
            precedence: Precedence::Lowest,
        },
        TokenType::False | TokenType::Nil | TokenType::True => ParseRule {
            prefix: Some(PrefixRule::Literal),
            infix: None,
            precedence: Precedence::Lowest,
        },
        _ => ParseRule { prefix: None, infix: None, precedence: Precedence::Lowest },
    }
}

/// The opcode that a binary operator compiles to, after its operands, and
/// whether `Not` follows it.
pub open spec fn binary_op(kind: TokenType) -> Option<(OpCode, bool)> {
    match kind {
        TokenType::Plus => Some((OpCode::Add, false)),
        TokenType::Minus => Some((OpCode::Subtract, false)),
        TokenType::Star => Some((OpCode::Multiply, false)),
        TokenType::Slash => Some((OpCode::Divide, false)),
        TokenType::EqualEqual => Some((OpCode::Equal, false)),
        TokenType::BangEqual => Some((OpCode::Equal, true)),
        TokenType::Less => Some((OpCode::Less, false)),
        TokenType::LessEqual => Some((OpCode::Greater, true)),
        TokenType::Greater => Some((OpCode::Greater, false)),
        TokenType::GreaterEqual => Some((OpCode::Less, true)),
        _ => None,
    }
}

/// The opcode that a literal compiles to.
pub open spec fn literal_op(kind: TokenType) -> OpCode {
    match kind {
        TokenType::True => OpCode::True,
        TokenType::False => OpCode::False,
        _ => OpCode::Nil,
    }
}

/// The opcode that a unary operator compiles to, after its operand.
pub open spec fn unary_op(kind: TokenType) -> OpCode {
    if kind == TokenType::Minus {
        OpCode::Negate
    } else {
        OpCode::Not
    }
}

/// The chunk after the opcodes of the binary operator `kind` were written.
pub open spec fn emit_binary(chunk: ChunkView, kind: TokenType, line: u32) -> ChunkView {
    match binary_op(kind) {
        Some((op, negated)) => if negated {
            chunk.emit_op(op, line).emit_op(OpCode::Not, line)
        } else {
            chunk.emit_op(op, line)
        },
        None => chunk,
    }
}

/// A compile error: the token at which it was found and the message.
///
/// In a report the place is `end` for an `EOF` token, nothing for an `Error`
/// token, and the lexeme for any other.
#[derive(Debug)]
pub struct Diagnostic {
    pub token: Token,
    pub message: String,
}

/// The mathematical value of a [`Diagnostic`].
pub struct DiagnosticView {
    pub token: TokenView,
    pub message: Seq<char>,
}

impl View for Diagnostic {
    type V = DiagnosticView;

    open spec fn view(&self) -> DiagnosticView {
        DiagnosticView { token: self.token@, message: self.message@ }
    }
}

/// The values of a sequence of diagnostics.
pub open spec fn diagnostic_views(diagnostics: Seq<Diagnostic>) -> Seq<DiagnosticView> {
    diagnostics.map_values(|d: Diagnostic| d@)
}

/// The token that stands for `current` and `previous` before the first
/// token is read.
pub open spec fn no_token() -> TokenView {
    TokenView { kind: TokenType::EOF, lexeme: Seq::empty(), line: u32::MAX }
}

/// The mathematical value of a [`Parser`].
pub struct ParserView {
    pub scanner: ScannerView,
    /// The token to be consumed next.
    pub current: TokenView,
    /// The token consumed last.
    pub previous: TokenView,
    pub had_error: bool,
    /// Set by the first error; while it is set no error is reported.
    pub panic_mode: bool,
    pub diagnostics: Seq<DiagnosticView>,
    /// The number of `Number` tokens that came before `current`.
    pub number_index: nat,
}

impl ParserView {
    /// The parser before the first token is read.
    pub open spec fn initial(scanner: ScannerView) -> ParserView {
        ParserView {
            scanner,
            current: no_token(),
            previous: no_token(),
            had_error: false,
            panic_mode: false,
            diagnostics: Seq::empty(),
            number_index: 0,
        }
    }

    /// Whether the parser has read the first `read` tokens of its source
    /// and counted the `Number` tokens among them: what is left to scan is
    /// the rest of the tokens, and a `Number` token that is `previous` is
    /// the one that `number_index` counted last.
    pub open spec fn in_step(self, read: int) -> bool {
        let stream = tokens_from(self.scanner.source, 0, 1);
        &&& 0 <= read < stream.len()
        &&& tokens_from(self.scanner.source, self.scanner.current, self.scanner.line)
            == stream.skip(read)
        &&& self.number_index + if self.current.kind == TokenType::Number {
            1int
        } else {
            0int
        } == number_lexemes(stream.take(read)).len()
        &&& self.current.kind == TokenType::Number ==> read >= 1 && self.current == stream[read
            - 1]
        &&& self.previous.kind == TokenType::Number ==> 1 <= self.number_index
            <= number_lexemes(stream).len() && number_lexemes(stream)[self.number_index - 1]
            == self.previous.lexeme
    }

    /// Whether the parser is in step with the tokens of its source. See
    /// [`ParserView::in_step`].
    #[verifier::opaque]
    pub open spec fn follows(self) -> bool {
        exists|read: int| self.in_step(read)
    }

    /// What holds of a parser: the scanner stands within its source, each
    /// `Number` token read so far took at least one character, errors are
    /// silenced only after one was found, and the parser is in step with the
    /// tokens of its source.
    pub open spec fn wf(self) -> bool {
        &&& self.scanner.wf()
        &&& self.number_index + if self.current.kind == TokenType::Number {
            1int
        } else {
            0int
        } <= self.scanner.current
        &&& self.panic_mode ==> self.had_error
        &&& self.follows()
    }

    /// What is left to read: the characters after the scanner's place, and
    /// one more while `current` is not `EOF`.
    pub open spec fn budget(self) -> nat {
        let unread: nat = if self.scanner.current <= self.scanner.source.len() {
            (self.scanner.source.len() - self.scanner.current) as nat
        } else {
            0
        };
        if self.current.kind != TokenType::EOF {
            unread + 1
        } else {
            unread
        }
    }

    /// The parser after an error at `token`: the first error is recorded, a
    /// later one is not.
    pub open spec fn report_at(self, token: TokenView, message: Seq<char>) -> ParserView {
        if self.panic_mode {
            self
        } else {
            ParserView {
                panic_mode: true,
                had_error: true,
                diagnostics: self.diagnostics.push(DiagnosticView { token, message }),
                ..self
            }
        }
    }

    /// The parser after the next token that is no `Error` token has become
    /// `current`; each `Error` token on the way is reported with its lexeme,
    /// which is the scanner's message.
    pub open spec fn next_token(self) -> ParserView
        decreases self.scanner.source.len() - self.scanner.current,
        when self.scanner.wf()
    {
        let step = scan(self.scanner.source, self.scanner.current, self.scanner.line);
        let scanner = ScannerView {
            source: self.scanner.source,
            current: step.current,
            line: step.line,
        };
        if step.token.kind == TokenType::Error {
            proof {
                lemma_scan_advances(self.scanner.source, self.scanner.current, self.scanner.line);
            }
            (ParserView { scanner, ..self }).report_at(step.token, step.token.lexeme).next_token()
        } else {
            ParserView { scanner, current: step.token, ..self }
        }
    }

    /// The parser after `current` was consumed: it is `previous`, and the
    /// next token is `current`.
    pub open spec fn advanced(self) -> ParserView {
        (ParserView {
            previous: self.current,
            number_index: if self.current.kind == TokenType::Number {
                self.number_index + 1
            } else {
                self.number_index
            },
            ..self
        }).next_token()
    }

    /// The parser after `current` was consumed if it is of kind `kind`, and
    /// after an error at `current` if it is not.
    pub open spec fn consumed(self, kind: TokenType, message: Seq<char>) -> ParserView {
        if self.current.kind == kind {
            self.advanced()
        } else {
            self.report_at(self.current, message)
        }
    }

    /// The result of the conversion of the number literal `previous`.
    pub open spec fn number_value(self, numbers: Seq<Option<u64>>) -> Option<u64> {
        if 1 <= self.number_index <= numbers.len() {
            numbers[self.number_index - 1]
        } else {
            None
        }
    }
}

/// The parser and the chunk after the constant `value` was added to the pool
/// and the instruction that loads it was written for the line of `previous`:
/// the short form if the index fits in one byte, else the long form; an
/// error, and nothing added, if it fits in neither.
pub open spec fn load_constant(parser: ParserView, chunk: ChunkView, value: Value) -> (
    ParserView,
    ChunkView,
) {
    let index = chunk.constants.len();
    let line = parser.previous.line;
    if index > MAX_LONG_INDEX {
        (parser.report_at(parser.previous, "Too many constants in one chunk."@), chunk)
    } else if index > MAX_SHORT_INDEX {
        (
            parser,
            chunk.with_constant(value).emit_op(OpCode::ConstantLong, line).emit(
                long_index_bytes(index as u32),
                line,
            ),
        )
    } else {
        (
            parser,
            chunk.with_constant(value).emit_op(OpCode::Constant, line).emit(
                seq![index as u8],
                line,
            ),
        )
    }
}

/// The parser and the chunk after the number literal `previous` was
/// compiled: the instruction that loads its value is written, or an error is
/// reported if the literal could not be converted.
pub open spec fn load_number(parser: ParserView, chunk: ChunkView, numbers: Seq<Option<u64>>) -> (
    ParserView,
    ChunkView,
) {
    match parser.number_value(numbers) {
        Some(bits) => load_constant(parser, chunk, Value::Double(bits)),
        None => (parser.report_at(parser.previous, "Failed to parse number."@), chunk),
    }
}

/// The state of a compilation: the parser, the chunk it writes and the heap
/// in which it allocates the strings.
pub struct CompileState {
    pub parser: ParserView,
    pub chunk: ChunkView,
    pub heap: HeapView,
}

impl CompileState {
    /// The state after an error at the token `previous`.
    pub open spec fn error(self, message: Seq<char>) -> CompileState {
        CompileState { parser: self.parser.report_at(self.parser.previous, message), ..self }
    }

    /// The state after the opcode `op` was written for line `line`.
    pub open spec fn emit_op(self, op: OpCode, line: u32) -> CompileState {
        CompileState { chunk: self.chunk.emit_op(op, line), ..self }
    }

    /// The state after the constant `value` was added to the pool and the
    /// instruction that loads it was written. See [`load_constant`].
    pub open spec fn emit_constant(self, value: Value) -> CompileState {
        let (parser, chunk) = load_constant(self.parser, self.chunk, value);
        CompileState { parser, chunk, ..self }
    }

    /// The state after the number literal `previous` was compiled. See
    /// [`load_number`].
    pub open spec fn number(self, numbers: Seq<Option<u64>>) -> CompileState {
        let (parser, chunk) = load_number(self.parser, self.chunk, numbers);
        CompileState { parser, chunk, ..self }
    }

    /// The state after the string literal `previous` was compiled: a string
    /// object is allocated and made a root, and the instruction that loads
    /// its handle is written.
    pub open spec fn string(self) -> CompileState {
        let text = self.parser.previous.lexeme;
        if self.chunk.constants.len() > MAX_LONG_INDEX {
            self.error("Too many constants in one chunk."@)
        } else if self.heap.bytes_allocated + object_size(text) > HEAP_LIMIT {
            self.error("Out of memory."@)
        } else {
            let (heap, handle) = self.heap.allocated(text);
            (CompileState { heap: heap.with_root(handle), ..self }).emit_constant(
                Value::Object(handle),
            )
        }
    }

    /// The state after the literal `previous` was compiled.
    pub open spec fn literal(self) -> CompileState {
        self.emit_op(literal_op(self.parser.previous.kind), self.parser.previous.line)
    }

    /// The state after an expression that binds at least as strongly as
    /// `precedence` was compiled: a prefix expression that starts with
    /// `current`, then each infix operator that binds strongly enough with
    /// its right operand.
    ///
    /// The tests on `budget` are there to make the definition well founded:
    /// they hold of every sound state ([`lemma_parse_precedence_sound`]).
    pub open spec fn parse_precedence(
        self,
        numbers: Seq<Option<u64>>,
        precedence: Precedence,
    ) -> CompileState
        decreases self.parser.budget(), 0int,
    {
        let first = CompileState { parser: self.parser.advanced(), ..self };
        match rule_of(first.parser.previous.kind).prefix {
            None => first.error("Expect expression."@),
            Some(rule) => {
                if first.parser.budget() < self.parser.budget() {
                    let operand = first.prefix(numbers, rule);
                    if operand.parser.budget() <= first.parser.budget() {
                        operand.infix_loop(numbers, precedence)
                    } else {
                        operand
                    }
                } else {
                    first
                }
            },
        }
    }

    /// The state after the prefix expression that starts with `previous`
    /// was compiled, by the rule `rule` of the parse table.
    pub open spec fn prefix(self, numbers: Seq<Option<u64>>, rule: PrefixRule) -> CompileState
        decreases self.parser.budget(), 1int,
    {
        match rule {
            PrefixRule::Grouping => {
                let inner = self.parse_precedence(numbers, Precedence::Assignment);
                CompileState {
                    parser: inner.parser.consumed(
                        TokenType::RightParen,
                        "Expect ')' after expression."@,
                    ),
                    ..inner
                }
            },
            PrefixRule::Unary => self.parse_precedence(numbers, Precedence::Unary).emit_op(
                unary_op(self.parser.previous.kind),
                self.parser.previous.line,
            ),
            PrefixRule::Number => self.number(numbers),
            PrefixRule::String => self.string(),
            PrefixRule::Literal => self.literal(),
        }
    }

    /// The state after the right operand of the binary operator `previous`
    /// was compiled, one level above the operator's own binding power, and
    /// the operator's opcodes were written.
    pub open spec fn binary(self, numbers: Seq<Option<u64>>) -> CompileState
        decreases self.parser.budget(), 1int,
    {
        let operand = self.parse_precedence(
            numbers,
            rule_of(self.parser.previous.kind).precedence.stronger(),
        );
        CompileState {
            chunk: emit_binary(
                operand.chunk,
                self.parser.previous.kind,
                self.parser.previous.line,
            ),
            ..operand
        }
    }

    /// The state after each infix operator that binds at least as strongly
    /// as `precedence` was compiled with its right operand.
    ///
    /// The tests on `budget` are there to make the definition well founded:
    /// they hold of every sound state ([`lemma_infix_loop_sound`]).
    pub open spec fn infix_loop(
        self,
        numbers: Seq<Option<u64>>,
        precedence: Precedence,
    ) -> CompileState
        decreases self.parser.budget(), 0int,
    {
        if precedence.rank() <= rule_of(self.parser.current.kind).precedence.rank() {
            let first = CompileState { parser: self.parser.advanced(), ..self };
            if first.parser.budget() < self.parser.budget() {
                let operand = first.binary(numbers);
                if operand.parser.budget() <= first.parser.budget() {
                    operand.infix_loop(numbers, precedence)
                } else {
                    operand
                }
            } else {
                first
            }
        } else {
            self
        }
    }
}

/// The state after the source `source` was compiled into `chunk`: one
/// expression, then the end of the source, then `Return` on the line of the
/// last token.
pub open spec fn compiled(
    source: Seq<char>,
    numbers: Seq<Option<u64>>,
    chunk: ChunkView,
    heap: HeapView,
) -> CompileState {
    let start = CompileState {
        parser: ParserView::initial(ScannerView { source, current: 0, line: 1 }).advanced(),
        chunk,
        heap,
    };
    let parsed = start.parse_precedence(numbers, Precedence::Assignment);
    let closed = CompileState {
        parser: parsed.parser.consumed(TokenType::EOF, "Expect end of expression."@),
        ..parsed
    };
    closed.emit_op(OpCode::Return, closed.parser.previous.line)
}


/// Writing the instruction that loads a new constant keeps a well-formed
/// chunk well formed.
pub proof fn lemma_load_constant_well_formed(parser: ParserView, chunk: ChunkView, value: Value)
    requires
        chunk.well_formed(),
    ensures
        load_constant(parser, chunk, value).1.well_formed(),
{
    let index = chunk.constants.len();
    let line = parser.previous.line;
    let end = chunk.code.len() as int;
    let later = load_constant(parser, chunk, value).1;
    if index > MAX_LONG_INDEX {
    } else if index > MAX_SHORT_INDEX {
        lemma_long_index_bytes(index as u32);
        assert(later.code[end] == OpCode::ConstantLong.byte());
        assert(later.code[end + 1] == long_index_bytes(index as u32)[0]);
        assert(later.code[end + 2] == long_index_bytes(index as u32)[1]);
        assert(later.code[end + 3] == long_index_bytes(index as u32)[2]);
        assert(later.instruction_at(end));
        assert(later.instructions_from(end + 4));
        lemma_extension_keeps_instructions(chunk, later, 0);
    } else {
        assert(later.code[end] == OpCode::Constant.byte());
        assert(later.code[end + 1] == index as u8);
        assert(later.instruction_at(end));
        assert(later.instructions_from(end + 2));
        lemma_extension_keeps_instructions(chunk, later, 0);
    }
}

/// Writing the opcodes of a binary operator keeps a well-formed chunk well
/// formed.
pub proof fn lemma_emit_binary_well_formed(chunk: ChunkView, kind: TokenType, line: u32)
    requires
        chunk.well_formed(),
    ensures
        emit_binary(chunk, kind, line).well_formed(),
{
    match binary_op(kind) {
        Some((op, negated)) => {
            lemma_emit_op_well_formed(chunk, op, line);
            lemma_emit_op_well_formed(chunk.emit_op(op, line), OpCode::Not, line);
        },
        None => {},
    }
}

/// The parser: the scanner, one token of lookahead, and the state of error
/// reporting.
pub struct Parser {
    scanner: Scanner,
    current: Token,
    previous: Token,
    had_error: bool,
    panic_mode: bool,
    diagnostics: Vec<Diagnostic>,
    number_index: usize,
}

impl View for Parser {
    type V = ParserView;

    closed spec fn view(&self) -> ParserView {
        ParserView {
            scanner: self.scanner@,
            current: self.current@,
            previous: self.previous@,
            had_error: self.had_error,
            panic_mode: self.panic_mode,
            diagnostics: diagnostic_views(self.diagnostics@),
            number_index: self.number_index as nat,
        }
    }
}

impl Parser {
    /// A parser that has read no token yet.
    pub fn init(scanner: Scanner) -> (parser: Parser)
        ensures
            parser@ == ParserView::initial(scanner@),
    {
        let parser = Parser {
            scanner,
            current: Token { token_type: TokenType::EOF, source: String::new(), line: u32::MAX },
            previous: Token { token_type: TokenType::EOF, source: String::new(), line: u32::MAX },
            had_error: false,
            panic_mode: false,
            diagnostics: Vec::new(),
            number_index: 0,
        };
        proof {
            assert(diagnostic_views(parser.diagnostics@) =~= Seq::<DiagnosticView>::empty());
        }
        parser
    }

    /// Consumes `current` and reads the next token, reporting each `Error`
    /// token on the way.
    pub fn advance(&mut self)
        requires
            old(self)@.wf(),
        ensures
            final(self)@ == old(self)@.advanced(),
            final(self)@.wf(),
            final(self)@.previous == old(self)@.current,
            final(self)@.budget() <= old(self)@.budget(),
            old(self)@.current.kind != TokenType::EOF ==> final(self)@.budget() < old(self)@.budget(),
    {
        self.previous = self.current.clone();
        if self.current.token_type == TokenType::Number {
            self.number_index += 1;
        }
        let ghost entered = self@;
        loop
            invariant
                old(self)@.wf(),
                entered.scanner.wf(),
                entered.number_index <= entered.scanner.current,
                entered.current == old(self)@.current,
                entered.scanner == old(self)@.scanner,
                entered.next_token() == old(self)@.advanced(),
                entered.previous == old(self)@.current,
                self@.scanner.wf(),
                self@.scanner.source == entered.scanner.source,
                self@.scanner.current >= entered.scanner.current,
                self@.current == entered.current,
                self@.previous == entered.previous,
                self@.number_index == entered.number_index,
                self@.next_token() == entered.next_token(),
            decreases self@.scanner.source.len() - self@.scanner.current,
        {
            let ghost before = self@;
            let token = self.scanner.scan_token();
            proof {
                lemma_scan_advances(
                    before.scanner.source,
                    before.scanner.current,
                    before.scanner.line,
                );
            }
            if token.token_type == TokenType::Error {
                let message = token.source.clone();
                self.error_at(token, message.as_str());
            } else {
                self.current = token;
                proof {
                    lemma_advanced(old(self)@);
                }
                return ;
            }
        }
    }

    fn error_at_current(&mut self, message: &str)
        ensures
            final(self)@ == old(self)@.report_at(old(self)@.current, message@),
            old(self)@.wf() ==> final(self)@.wf(),
    {
        let token = self.current.clone();
        self.error_at(token, message);
    }

    fn error(&mut self, message: &str)
        ensures
            final(self)@ == old(self)@.report_at(old(self)@.previous, message@),
            old(self)@.wf() ==> final(self)@.wf(),
    {
        let token = self.previous.clone();
        self.error_at(token, message);
    }

    fn error_at(&mut self, token: Token, message: &str)
        ensures
            final(self)@ == old(self)@.report_at(token@, message@),
            old(self)@.wf() ==> final(self)@.wf(),
    {
        proof {
            if self@.wf() {
                lemma_report_at(self@, token@, message@);
            }
        }
        if self.panic_mode {
            return ;
        }
        self.panic_mode = true;
        let ghost before = self.diagnostics@;
        let diagnostic = Diagnostic { token, message: message.to_owned() };
        self.diagnostics.push(diagnostic);
        self.had_error = true;
        proof {
            assert(diagnostic_views(self.diagnostics@) =~= diagnostic_views(before).push(
                diagnostic@,
            ));
        }
    }

    fn consume(&mut self, token_type: TokenType, message: &str)
        requires
            old(self)@.wf(),
        ensures
            final(self)@ == old(self)@.consumed(token_type, message@),
            final(self)@.wf(),
            final(self)@.budget() <= old(self)@.budget(),
    {
        if self.current.token_type == token_type {
            self.advance()
        } else {
            self.error_at_current(message)
        }
    }

    fn emit_constant(&mut self, value: Value, chunk: &mut Chunk)
        ensures
            (final(self)@, final(chunk)@) == load_constant(old(self)@, old(chunk)@, value),
            old(chunk)@.well_formed() ==> final(chunk)@.well_formed(),
            old(self)@.wf() ==> final(self)@.wf(),
    {
        let line = self.previous.line;
        proof {
            if chunk@.well_formed() {
                lemma_load_constant_well_formed(self@, chunk@, value);
            }
        }
        if chunk.constants().len() > MAX_LONG_INDEX as usize {
            self.error("Too many constants in one chunk.");
        } else {
            let constant_idx = chunk.add_constant(value);
            if constant_idx.0 > MAX_SHORT_INDEX {
                chunk.add_code_op(OpCode::ConstantLong, line);
                chunk.add_code_constant_long(constant_idx, line);
            } else {
                chunk.add_code_op(OpCode::Constant, line);
                chunk.add_code_constant(constant_idx, line);
            }
        }
    }

    fn number(&mut self, chunk: &mut Chunk, numbers: &Vec<Option<u64>>)
        ensures
            (final(self)@, final(chunk)@) == load_number(old(self)@, old(chunk)@, numbers@),
            final(self)@.scanner == old(self)@.scanner,
            final(self)@.current == old(self)@.current,
            old(self)@.wf() ==> final(self)@.wf(),
            old(chunk)@.well_formed() ==> final(chunk)@.well_formed(),
    {
        let value = if 1 <= self.number_index && self.number_index <= numbers.len() {
            numbers[self.number_index - 1]
        } else {
            None
        };
        match value {
            Some(bits) => self.emit_constant(Value::Double(bits), chunk),
            None => self.error("Failed to parse number."),
        }
    }

    fn string(&mut self, chunk: &mut Chunk, heap: &mut ObjectHeap)
        requires
            old(heap).wf(),
        ensures
            (CompileState { parser: old(self)@, chunk: old(chunk)@, heap: old(heap)@ }).string() == (
            CompileState { parser: final(self)@, chunk: final(chunk)@, heap: final(heap)@ }),
            final(heap).wf(),
            final(self)@.scanner == old(self)@.scanner,
            final(self)@.current == old(self)@.current,
            old(self)@.wf() ==> final(self)@.wf(),
            old(chunk)@.well_formed() ==> final(chunk)@.well_formed(),
    {
        if chunk.constants().len() > MAX_LONG_INDEX as usize {
            self.error("Too many constants in one chunk.");
        } else if !heap.has_room(self.previous.source.as_str()) {
            self.error("Out of memory.");
        } else {
            let handle = heap.alloc_string(self.previous.source.as_str());
            heap.add_root(handle);
            self.emit_constant(Value::Object(handle), chunk);
        }
    }

    fn literal(&self, chunk: &mut Chunk)
        ensures
            final(chunk)@ == old(chunk)@.emit_op(literal_op(self@.previous.kind), self@.previous.line),
            old(chunk)@.well_formed() ==> final(chunk)@.well_formed(),
    {
        let line = self.previous.line;
        proof {
            if chunk@.well_formed() {
                lemma_emit_op_well_formed(chunk@, literal_op(self@.previous.kind), line);
            }
        }
        match self.previous.token_type {
            TokenType::True => chunk.add_code_op(OpCode::True, line),
            TokenType::False => chunk.add_code_op(OpCode::False, line),
            _ => chunk.add_code_op(OpCode::Nil, line),
        }
    }

    fn expression(
        &mut self,
        chunk: &mut Chunk,
        heap: &mut ObjectHeap,
        numbers: &Vec<Option<u64>>,
    )
        requires
            old(self)@.wf(),
            old(heap).wf(),
        ensures
            (CompileState {
                parser: old(self)@,
                chunk: old(chunk)@,
                heap: old(heap)@,
            }).parse_precedence(numbers@, Precedence::Assignment) == (CompileState {
                parser: final(self)@,
                chunk: final(chunk)@,
                heap: final(heap)@,
            }),
            final(self)@.wf(),
            final(heap).wf(),
            final(self)@.budget() <= old(self)@.budget(),
            old(chunk)@.well_formed() ==> final(chunk)@.well_formed(),
        decreases old(self)@.budget(), 1int,
    {
        self.parse_precedence(Precedence::Assignment, chunk, heap, numbers)
    }

    fn grouping(&mut self, chunk: &mut Chunk, heap: &mut ObjectHeap, numbers: &Vec<Option<u64>>)
        requires
            old(self)@.wf(),
            old(heap).wf(),
        ensures
            (CompileState { parser: old(self)@, chunk: old(chunk)@, heap: old(heap)@ }).prefix(
                numbers@,
                PrefixRule::Grouping,
            ) == (CompileState {
                parser: final(self)@,
                chunk: final(chunk)@,
                heap: final(heap)@,
            }),
            final(self)@.wf(),
            final(heap).wf(),
            final(self)@.budget() <= old(self)@.budget(),
            old(chunk)@.well_formed() ==> final(chunk)@.well_formed(),
        decreases old(self)@.budget(), 2int,
    {
        self.expression(chunk, heap, numbers);
        self.consume(TokenType::RightParen, "Expect ')' after expression.");
    }

    fn unary(&mut self, chunk: &mut Chunk, heap: &mut ObjectHeap, numbers: &Vec<Option<u64>>)
        requires
            old(self)@.wf(),
            old(heap).wf(),
            old(self)@.previous.kind == TokenType::Minus || old(self)@.previous.kind
                == TokenType::Bang,
        ensures
            (CompileState { parser: old(self)@, chunk: old(chunk)@, heap: old(heap)@ }).prefix(
                numbers@,
                PrefixRule::Unary,
            ) == (CompileState {
                parser: final(self)@,
                chunk: final(chunk)@,
                heap: final(heap)@,
            }),
            final(self)@.wf(),
            final(heap).wf(),
            final(self)@.budget() <= old(self)@.budget(),
            old(chunk)@.well_formed() ==> final(chunk)@.well_formed(),
        decreases old(self)@.budget(), 2int,
    {
        let op_type = self.previous.token_type;
        let line = self.previous.line;
        self.parse_precedence(Precedence::Unary, chunk, heap, numbers);
        proof {
            if chunk@.well_formed() {
                lemma_emit_op_well_formed(chunk@, unary_op(op_type), line);
            }
        }
        match op_type {
            TokenType::Minus => chunk.add_code_op(OpCode::Negate, line),
            _ => chunk.add_code_op(OpCode::Not, line),
        }
    }

    fn binary(&mut self, chunk: &mut Chunk, heap: &mut ObjectHeap, numbers: &Vec<Option<u64>>)
        requires
            old(self)@.wf(),
            old(heap).wf(),
        ensures
            (CompileState { parser: old(self)@, chunk: old(chunk)@, heap: old(heap)@ }).binary(
                numbers@,
            ) == (CompileState { parser: final(self)@, chunk: final(chunk)@, heap: final(heap)@ }),
            final(self)@.wf(),
            final(heap).wf(),
            final(self)@.budget() <= old(self)@.budget(),
            old(chunk)@.well_formed() ==> final(chunk)@.well_formed(),
        decreases old(self)@.budget(), 2int,
    {
        let op_type = self.previous.token_type;
        let line = self.previous.line;
        let parse_rule = Parser::get_rule(op_type);
        self.parse_precedence(parse_rule.precedence.next(), chunk, heap, numbers);
        proof {
            if chunk@.well_formed() {
                lemma_emit_binary_well_formed(chunk@, op_type, line);
            }
        }
        match op_type {
            TokenType::Plus => chunk.add_code_op(OpCode::Add, line),
            TokenType::Minus => chunk.add_code_op(OpCode::Subtract, line),
            TokenType::Star => chunk.add_code_op(OpCode::Multiply, line),
            TokenType::Slash => chunk.add_code_op(OpCode::Divide, line),
            TokenType::EqualEqual => chunk.add_code_op(OpCode::Equal, line),
            TokenType::BangEqual => {
                chunk.add_code_op(OpCode::Equal, line);
                chunk.add_code_op(OpCode::Not, line)
            },
            TokenType::Less => chunk.add_code_op(OpCode::Less, line),
            TokenType::LessEqual => {
                chunk.add_code_op(OpCode::Greater, line);
                chunk.add_code_op(OpCode::Not, line)
            },
            TokenType::Greater => chunk.add_code_op(OpCode::Greater, line),
            TokenType::GreaterEqual => {
                chunk.add_code_op(OpCode::Less, line);
                chunk.add_code_op(OpCode::Not, line)
            },
            _ => {},
        }
    }

    fn parse_precedence(
        &mut self,
        precedence: Precedence,
        chunk: &mut Chunk,
        heap: &mut ObjectHeap,
        numbers: &Vec<Option<u64>>,
    )
        requires
            old(self)@.wf(),
            old(heap).wf(),
            precedence.rank() >= 1,
        ensures
            (CompileState {
                parser: old(self)@,
                chunk: old(chunk)@,
                heap: old(heap)@,
            }).parse_precedence(numbers@, precedence) == (CompileState {
                parser: final(self)@,
                chunk: final(chunk)@,
                heap: final(heap)@,
            }),
            final(self)@.wf(),
            final(heap).wf(),
            final(self)@.budget() <= old(self)@.budget(),
            old(chunk)@.well_formed() ==> final(chunk)@.well_formed(),
        decreases old(self)@.budget(), 0int,
    {
        let ghost entered = CompileState { parser: self@, chunk: chunk@, heap: heap@ };
        self.advance();
        let ghost first = CompileState { parser: self@, chunk: chunk@, heap: heap@ };
        let prefix_rule = Parser::get_rule(self.previous.token_type).prefix;
        match prefix_rule {
            Some(rule) => self.prefix(rule, chunk, heap, numbers),
            None => {
                self.error("Expect expression.");
                return ;
            },
        }
        let ghost operand = CompileState { parser: self@, chunk: chunk@, heap: heap@ };
        proof {
            assert(first.parser == entered.parser.advanced());
            assert(first.parser.budget() < entered.parser.budget());
            assert(operand == first.prefix(numbers@, prefix_rule->0));
            assert(entered.parse_precedence(numbers@, precedence) == operand.infix_loop(
                numbers@,
                precedence,
            ));
        }
        let ghost target = (CompileState {
            parser: self@,
            chunk: chunk@,
            heap: heap@,
        }).infix_loop(numbers@, precedence);
        while precedence.level() <= Parser::get_rule(self.current.token_type).precedence.level()
            invariant
                self@.wf(),
                heap.wf(),
                precedence.rank() >= 1,
                self@.budget() < old(self)@.budget(),
                old(chunk)@.well_formed() ==> chunk@.well_formed(),
                (CompileState { parser: self@, chunk: chunk@, heap: heap@ }).infix_loop(
                    numbers@,
                    precedence,
                ) == target,
            decreases self@.budget(),
        {
            let ghost before = CompileState { parser: self@, chunk: chunk@, heap: heap@ };
            self.advance();
            let ghost first = CompileState { parser: self@, chunk: chunk@, heap: heap@ };
            self.binary(chunk, heap, numbers);
            proof {
                let operand = CompileState { parser: self@, chunk: chunk@, heap: heap@ };
                assert(first.parser == before.parser.advanced());
                assert(operand == first.binary(numbers@));
                assert(before.infix_loop(numbers@, precedence) == operand.infix_loop(
                    numbers@,
                    precedence,
                ));
            }
        }
    }

    fn prefix(
        &mut self,
        rule: PrefixRule,
        chunk: &mut Chunk,
        heap: &mut ObjectHeap,
        numbers: &Vec<Option<u64>>,
    )
        requires
            old(self)@.wf(),
            old(heap).wf(),
            rule_of(old(self)@.previous.kind).prefix == Some(rule),
        ensures
            (CompileState { parser: old(self)@, chunk: old(chunk)@, heap: old(heap)@ }).prefix(
                numbers@,
                rule,
            ) == (CompileState {
                parser: final(self)@,
                chunk: final(chunk)@,
                heap: final(heap)@,
            }),
            final(self)@.wf(),
            final(heap).wf(),
            final(self)@.budget() <= old(self)@.budget(),
            old(chunk)@.well_formed() ==> final(chunk)@.well_formed(),
        decreases old(self)@.budget(), 3int,
    {
        match rule {
            PrefixRule::Grouping => self.grouping(chunk, heap, numbers),
            PrefixRule::Unary => self.unary(chunk, heap, numbers),
            PrefixRule::Number => self.number(chunk, numbers),
            PrefixRule::String => self.string(chunk, heap),
            PrefixRule::Literal => self.literal(chunk),
        }
    }

    /// The row of the parse table for a kind of token: what the token does
    /// at the start of an expression, what it does after an operand, and how
    /// strongly it binds.
    pub fn get_rule(op_type: TokenType) -> (rule: ParseRule)
        ensures
            rule == rule_of(op_type),
    {
        match op_type {
            TokenType::LeftParen => ParseRule {
                prefix: Some(PrefixRule::Grouping),
                infix: None,
                precedence: Precedence::Lowest,
            },
            TokenType::Minus => ParseRule {
                prefix: Some(PrefixRule::Unary),
                infix: Some(InfixRule::Binary),
                precedence: Precedence::Term,
            },
            TokenType::Plus => ParseRule {
                prefix: None,
                infix: Some(InfixRule::Binary),
                precedence: Precedence::Term,
            },
            TokenType::Slash => ParseRule {
                prefix: None,
                infix: Some(InfixRule::Binary),
                precedence: Precedence::Factor,
            },
            TokenType::Star => ParseRule {
                prefix: None,
                infix: Some(InfixRule::Binary),
                precedence: Precedence::Factor,
            },
            TokenType::Bang => ParseRule {
                prefix: Some(PrefixRule::Unary),
                infix: None,
                precedence: Precedence::Lowest,
            },
            TokenType::BangEqual => ParseRule {
                prefix: None,
                infix: Some(InfixRule::Binary),
                precedence: Precedence::Equality,
            },
            TokenType::EqualEqual => ParseRule {
                prefix: None,
                infix: Some(InfixRule::Binary),
                precedence: Precedence::Equality,
            },
            TokenType::Greater => ParseRule {
                prefix: None,
                infix: Some(InfixRule::Binary),
                precedence: Precedence::Comparison,
            },
            TokenType::GreaterEqual => ParseRule {
                prefix: None,
                infix: Some(InfixRule::Binary),
                precedence: Precedence::Comparison,
            },
            TokenType::Less => ParseRule {
                prefix: None,
                infix: Some(InfixRule::Binary),
                precedence: Precedence::Comparison,
            },
            TokenType::LessEqual => ParseRule {
                prefix: None,
                infix: Some(InfixRule::Binary),
                precedence: Precedence::Comparison,
            },
            TokenType::String => ParseRule {
                prefix: Some(PrefixRule::String),
                infix: None,
                precedence: Precedence::Lowest,
            },
            TokenType::Number => ParseRule {
                prefix: Some(PrefixRule::Number),
                infix: None,
                precedence: Precedence::Lowest,
            },
            TokenType::False => ParseRule {
                prefix: Some(PrefixRule::Literal),
                infix: None,
                precedence: Precedence::Lowest,
            },
            TokenType::Nil => ParseRule {
                prefix: Some(PrefixRule::Literal),
                infix: None,
                precedence: Precedence::Lowest,
            },
            TokenType::True => ParseRule {
                prefix: Some(PrefixRule::Literal),
                infix: None,
                precedence: Precedence::Lowest,
            },
            _ => ParseRule { prefix: None, infix: None, precedence: Precedence::Lowest },
        }
    }
}

/// Compiles `source` into `chunk`: one expression, then `Return`. String
/// literals are allocated in `heap` and made roots. `numbers` holds the
/// converted number literals of the source, in the order of the scanner's
/// `Number` tokens. The result is the diagnostics if an error was found.
///
/// The code written for a source without error is balanced: run on an empty
/// stack, each instruction finds on the stack what it takes.
pub fn compile(
    source: String,
    numbers: &Vec<Option<u64>>,
    chunk: &mut Chunk,
    heap: &mut ObjectHeap,
) -> (result: Result<(), Vec<Diagnostic>>)
    requires
        is_ascii_chars(source@),
        old(heap).wf(),
    ensures
        final(heap).wf(),
        old(chunk)@.well_formed() ==> final(chunk)@.well_formed(),
        old(chunk)@.well_formed() && protects(old(heap)@, old(chunk)@.constants) ==> protects(
            final(heap)@,
            final(chunk)@.constants,
        ),
        old(chunk)@.well_formed() && protects(old(heap)@, old(chunk)@.constants) && result is Ok
            ==> final(chunk)@.balanced_from(old(chunk)@.code.len() as int, 0),
        final(chunk)@ == compiled(source@, numbers@, old(chunk)@, old(heap)@).chunk,
        final(heap)@ == compiled(source@, numbers@, old(chunk)@, old(heap)@).heap,
        match result {
            Ok(_) => !compiled(source@, numbers@, old(chunk)@, old(heap)@).parser.had_error,
            Err(diagnostics) => {
                &&& compiled(source@, numbers@, old(chunk)@, old(heap)@).parser.had_error
                &&& diagnostic_views(diagnostics@) == compiled(
                    source@,
                    numbers@,
                    old(chunk)@,
                    old(heap)@,
                ).parser.diagnostics
            },
        },
{
    let scanner = Scanner::init(source);
    let mut parser = Parser::init(scanner);
    proof {
        lemma_initial(source@);
        heap.lemma_wf();
        if chunk@.well_formed() && protects(heap@, chunk@.constants) {
            lemma_compiled_sound(source@, numbers@, chunk@, heap@);
            lemma_compiled_balanced(source@, numbers@, chunk@, heap@);
        }
    }
    parser.advance();
    parser.expression(chunk, heap, numbers);
    parser.consume(TokenType::EOF, "Expect end of expression.");
    proof {
        if chunk@.well_formed() {
            lemma_emit_op_well_formed(chunk@, OpCode::Return, parser@.previous.line);
        }
    }
    chunk.add_code_op(OpCode::Return, parser.previous.line);
    if parser.had_error {
        Err(parser.diagnostics)
    } else {
        Ok(())
    }
}


/// The lexemes of the `Number` tokens among `tokens`, in their order.
pub open spec fn number_lexemes(tokens: Seq<TokenView>) -> Seq<Seq<char>>
    decreases tokens.len(),
{
    if tokens.len() == 0 {
        Seq::empty()
    } else if tokens.last().kind == TokenType::Number {
        number_lexemes(tokens.drop_last()).push(tokens.last().lexeme)
    } else {
        number_lexemes(tokens.drop_last())
    }
}

/// The number literals of `source`, in the order of the scanner's `Number`
/// tokens: what the caller converts and hands to [`compile`].
pub fn number_literals(source: String) -> (literals: Vec<String>)
    requires
        is_ascii_chars(source@),
    ensures
        literals@.map_values(|s: String| s@) == number_lexemes(tokens_from(source@, 0, 1)),
{
    let mut scanner = Scanner::init(source);
    let tokens = scanner.scan();
    let mut literals: Vec<String> = Vec::new();
    let mut i: usize = 0;
    proof {
        assert(token_views(tokens@).take(0) =~= Seq::<TokenView>::empty());
        assert(literals@.map_values(|s: String| s@) =~= Seq::<Seq<char>>::empty());
    }
    while i < tokens.len()
        invariant
            i <= tokens@.len(),
            literals@.map_values(|s: String| s@) == number_lexemes(
                token_views(tokens@).take(i as int),
            ),
        decreases tokens@.len() - i,
    {
        let ghost before = literals@;
        proof {
            assert(token_views(tokens@).take(i + 1).drop_last() =~= token_views(tokens@).take(
                i as int,
            ));
            assert(token_views(tokens@).take(i + 1).last() == tokens@[i as int]@);
        }
        if tokens[i].token_type == TokenType::Number {
            let lexeme = tokens[i].source.clone();
            literals.push(lexeme);
            proof {
                assert(literals@.map_values(|s: String| s@) =~= before.map_values(
                    |s: String| s@,
                ).push(lexeme@));
            }
        }
        i += 1;
    }
    proof {
        assert(token_views(tokens@).take(i as int) =~= token_views(tokens@));
    }
    literals
}


impl CompileState {
    /// What holds of a compilation at each point: the parser and the heap
    /// are well formed, the chunk is well formed, and each string of the
    /// constant pool is a live object that the root set holds.
    pub open spec fn sound(self) -> bool {
        &&& self.parser.wf()
        &&& self.chunk.well_formed()
        &&& self.heap.wf()
        &&& protects(self.heap, self.chunk.constants)
    }
}

/// What follows the token at place `read` of a token stream, when what is
/// left to scan is the stream from that place on: the next step of scanning
/// yields that token, and after it what is left is the stream from the next
/// place on, or the final `EOF` again.
proof fn lemma_stream_next(src: Seq<char>, pos: int, line: u32, read: int)
    requires
        0 <= pos <= src.len(),
        0 <= read < tokens_from(src, 0, 1).len(),
        tokens_from(src, pos, line) == tokens_from(src, 0, 1).skip(read),
    ensures
        ({
            let stream = tokens_from(src, 0, 1);
            let step = scan(src, pos, line);
            &&& step.token == stream[read]
            &&& step.token.kind != TokenType::EOF ==> read + 1 < stream.len() && tokens_from(
                src,
                step.current,
                step.line,
            ) == stream.skip(read + 1)
            &&& step.token.kind == TokenType::EOF ==> tokens_from(src, step.current, step.line)
                == stream.skip(read)
        }),
{
    let stream = tokens_from(src, 0, 1);
    let step = scan(src, pos, line);
    lemma_scan_advances(src, pos, line);
    assert(stream.skip(read)[0] == stream[read]);
    if step.token.kind == TokenType::EOF {
        lemma_eof_repeats(src, pos, line);
    } else {
        let rest = tokens_from(src, step.current, step.line);
        lemma_tokens_end(src, step.current, step.line);
        assert(stream.skip(read) == seq![step.token] + rest);
        assert(stream.skip(read).len() == rest.len() + 1);
        assert(stream.skip(read + 1) =~= rest) by {
            assert forall|i: int| 0 <= i < rest.len() implies stream.skip(read + 1)[i]
                == rest[i] by {
                assert(stream.skip(read)[i + 1] == rest[i]);
            }
        }
    }
}

/// One more token adds its lexeme to the number literals if it is a
/// `Number` token.
proof fn lemma_number_lexemes_take(tokens: Seq<TokenView>, n: int)
    requires
        0 <= n < tokens.len(),
    ensures
        number_lexemes(tokens.take(n + 1)) == if tokens[n].kind == TokenType::Number {
            number_lexemes(tokens.take(n)).push(tokens[n].lexeme)
        } else {
            number_lexemes(tokens.take(n))
        },
{
    assert(tokens.take(n + 1).drop_last() =~= tokens.take(n));
}

/// The number literals among the first tokens are the first of all the
/// number literals.
proof fn lemma_number_lexemes_prefix(tokens: Seq<TokenView>, n: int)
    requires
        0 <= n <= tokens.len(),
    ensures
        number_lexemes(tokens.take(n)).len() <= number_lexemes(tokens).len(),
        forall|i: int|
            0 <= i < number_lexemes(tokens.take(n)).len() ==> number_lexemes(tokens.take(n))[i]
                == number_lexemes(tokens)[i],
    decreases tokens.len() - n,
{
    if n < tokens.len() {
        lemma_number_lexemes_take(tokens, n);
        lemma_number_lexemes_prefix(tokens, n + 1);
    } else {
        assert(tokens.take(n) =~= tokens);
    }
}

/// Reading the next token keeps the parser well formed and moves the scanner
/// forward: past at least one character unless the token is `EOF`.
pub proof fn lemma_next_token(parser: ParserView, read: int)
    requires
        parser.scanner.wf(),
        parser.number_index <= parser.scanner.current,
        parser.panic_mode ==> parser.had_error,
        0 <= read < tokens_from(parser.scanner.source, 0, 1).len(),
        tokens_from(parser.scanner.source, parser.scanner.current, parser.scanner.line)
            == tokens_from(parser.scanner.source, 0, 1).skip(read),
        parser.number_index == number_lexemes(
            tokens_from(parser.scanner.source, 0, 1).take(read),
        ).len(),
        parser.previous.kind == TokenType::Number ==> 1 <= parser.number_index
            <= number_lexemes(tokens_from(parser.scanner.source, 0, 1)).len() && number_lexemes(
            tokens_from(parser.scanner.source, 0, 1),
        )[parser.number_index - 1] == parser.previous.lexeme,
    ensures
        parser.next_token().wf(),
        parser.had_error ==> parser.next_token().had_error,
        parser.next_token().scanner.source == parser.scanner.source,
        parser.next_token().scanner.current >= parser.scanner.current,
        parser.next_token().previous == parser.previous,
        parser.next_token().number_index == parser.number_index,
        parser.next_token().current.kind != TokenType::EOF ==> parser.next_token().scanner.current
            > parser.scanner.current,
    decreases parser.scanner.source.len() - parser.scanner.current,
{
    let src = parser.scanner.source;
    let stream = tokens_from(src, 0, 1);
    let step = scan(src, parser.scanner.current, parser.scanner.line);
    lemma_scan_advances(src, parser.scanner.current, parser.scanner.line);
    lemma_stream_next(src, parser.scanner.current, parser.scanner.line, read);
    let scanner = ScannerView { source: src, current: step.current, line: step.line };
    if step.token.kind == TokenType::Error {
        lemma_number_lexemes_take(stream, read);
        lemma_next_token(
            (ParserView { scanner, ..parser }).report_at(step.token, step.token.lexeme),
            read + 1,
        );
    } else if step.token.kind == TokenType::EOF {
        reveal(ParserView::follows);
        assert(parser.next_token().in_step(read));
    } else {
        reveal(ParserView::follows);
        lemma_number_lexemes_take(stream, read);
        assert(parser.next_token().in_step(read + 1));
    }
}

/// Consuming a token keeps the parser well formed and leaves no more to
/// read than before, and less unless `current` was `EOF`.
pub proof fn lemma_advanced(parser: ParserView)
    requires
        parser.wf(),
    ensures
        parser.advanced().wf(),
        parser.had_error ==> parser.advanced().had_error,
        parser.advanced().previous == parser.current,
        parser.advanced().budget() <= parser.budget(),
        parser.current.kind != TokenType::EOF ==> parser.advanced().budget() < parser.budget(),
{
    reveal(ParserView::follows);
    let read = choose|read: int| parser.in_step(read);
    let stream = tokens_from(parser.scanner.source, 0, 1);
    lemma_number_lexemes_prefix(stream, read);
    if parser.current.kind == TokenType::Number {
        lemma_number_lexemes_take(stream, read - 1);
    }
    lemma_next_token(
        ParserView {
            previous: parser.current,
            number_index: if parser.current.kind == TokenType::Number {
                parser.number_index + 1
            } else {
                parser.number_index
            },
            ..parser
        },
        read,
    );
}

/// An error keeps the parser well formed.
pub proof fn lemma_report_at(parser: ParserView, token: TokenView, message: Seq<char>)
    requires
        parser.wf(),
    ensures
        parser.report_at(token, message).wf(),
        parser.report_at(token, message).had_error,
        parser.report_at(token, message).budget() == parser.budget(),
{
    reveal(ParserView::follows);
    let read = choose|read: int| parser.in_step(read);
    assert(parser.report_at(token, message).in_step(read));
}

/// Consuming a token of a given kind, or reporting that it is not there,
/// keeps the parser well formed and leaves no more to read than before.
pub proof fn lemma_consumed(parser: ParserView, kind: TokenType, message: Seq<char>)
    requires
        parser.wf(),
    ensures
        parser.consumed(kind, message).wf(),
        parser.had_error ==> parser.consumed(kind, message).had_error,
        parser.consumed(kind, message).budget() <= parser.budget(),
{
    lemma_advanced(parser);
    lemma_report_at(parser, parser.current, message);
}

/// Loading a constant keeps the parser well formed.
pub proof fn lemma_load_constant_wf(parser: ParserView, chunk: ChunkView, value: Value)
    requires
        parser.wf(),
    ensures
        load_constant(parser, chunk, value).0.wf(),
        load_constant(parser, chunk, value).0.budget() == parser.budget(),
{
    lemma_report_at(parser, parser.previous, "Too many constants in one chunk."@);
}

/// Loading a number keeps the parser well formed.
pub proof fn lemma_load_number_wf(parser: ParserView, chunk: ChunkView, numbers: Seq<Option<u64>>)
    requires
        parser.wf(),
    ensures
        load_number(parser, chunk, numbers).0.wf(),
        load_number(parser, chunk, numbers).0.budget() == parser.budget(),
{
    lemma_report_at(parser, parser.previous, "Failed to parse number."@);
    match parser.number_value(numbers) {
        Some(bits) => lemma_load_constant_wf(parser, chunk, Value::Double(bits)),
        None => {},
    }
}

/// A parser that has read no token yet is well formed.
pub proof fn lemma_initial(source: Seq<char>)
    requires
        is_ascii_chars(source),
        source.len() <= usize::MAX,
    ensures
        ParserView::initial(ScannerView { source, current: 0, line: 1 }).wf(),
{
    let stream = tokens_from(source, 0, 1);
    lemma_tokens_end(source, 0, 1);
    assert(stream.skip(0) =~= stream);
    assert(stream.take(0) =~= Seq::<TokenView>::empty());
    reveal(ParserView::follows);
    assert(ParserView::initial(ScannerView { source, current: 0, line: 1 }).in_step(0));
}

/// The literal that the compiler takes a number for: when a `Number` token
/// is compiled, its lexeme is the one at place `number_index - 1` among the
/// number literals of the source, and its value is the number at that place
/// of `numbers`, if there is one.
pub proof fn lemma_number_order(parser: ParserView, numbers: Seq<Option<u64>>)
    requires
        parser.wf(),
        parser.previous.kind == TokenType::Number,
    ensures
        1 <= parser.number_index <= number_lexemes(
            tokens_from(parser.scanner.source, 0, 1),
        ).len(),
        number_lexemes(tokens_from(parser.scanner.source, 0, 1))[parser.number_index - 1]
            == parser.previous.lexeme,
        parser.number_value(numbers) == if parser.number_index <= numbers.len() {
            numbers[parser.number_index - 1]
        } else {
            None
        },
{
    reveal(ParserView::follows);
    let read = choose|read: int| parser.in_step(read);
}

/// Loading a constant keeps a compilation sound, if the constant is no
/// handle or is the handle of a live object that the root set holds.
pub proof fn lemma_emit_constant_sound(state: CompileState, value: Value)
    requires
        state.sound(),
        value is Object ==> state.heap.roots.contains(value->Object_0) && state.heap.resolves(
            value->Object_0,
        ),
    ensures
        state.emit_constant(value).sound(),
        state.emit_constant(value).parser.budget() == state.parser.budget(),
{
    lemma_load_constant_well_formed(state.parser, state.chunk, value);
    lemma_load_constant_wf(state.parser, state.chunk, value);
    let after = state.emit_constant(value);
    assert forall|i: int| 0 <= i < after.chunk.constants.len() implies match #[trigger] after.chunk.constants[i] {
        Value::Object(handle) => after.heap.roots.contains(handle) && after.heap.resolves(handle),
        _ => true,
    } by {
        if i < state.chunk.constants.len() {
            assert(after.chunk.constants[i] == state.chunk.constants[i]);
        }
    }
}

/// Compiling a string literal keeps a compilation sound.
pub proof fn lemma_string_sound(state: CompileState)
    requires
        state.sound(),
    ensures
        state.string().sound(),
        state.string().parser.budget() == state.parser.budget(),
{
    let text = state.parser.previous.lexeme;
    lemma_report_at(state.parser, state.parser.previous, "Too many constants in one chunk."@);
    lemma_report_at(state.parser, state.parser.previous, "Out of memory."@);
    if state.chunk.constants.len() <= MAX_LONG_INDEX && state.heap.bytes_allocated + object_size(
        text,
    ) <= HEAP_LIMIT {
        lemma_allocation_keeps_roots(state.heap, text);
        let (heap, handle) = state.heap.allocated(text);
        let rooted = CompileState { heap: heap.with_root(handle), ..state };
        assert(rooted.heap.roots.last() == handle);
        assert forall|i: int| 0 <= i < rooted.chunk.constants.len() implies match #[trigger] rooted.chunk.constants[i] {
            Value::Object(h) => rooted.heap.roots.contains(h) && rooted.heap.resolves(h),
            _ => true,
        } by {
            match state.chunk.constants[i] {
                Value::Object(h) => {
                    assert(state.heap.resolves(h));
                    let k = choose|k: int| 0 <= k < state.heap.roots.len() && state.heap.roots[k] == h;
                    assert(rooted.heap.roots[k] == h);
                },
                _ => {},
            }
        }
        lemma_emit_constant_sound(rooted, Value::Object(handle));
    }
}

/// Compiling an expression keeps a compilation sound and leaves no more to
/// read than before.
pub proof fn lemma_parse_precedence_sound(
    state: CompileState,
    numbers: Seq<Option<u64>>,
    precedence: Precedence,
)
    requires
        state.sound(),
    ensures
        state.parse_precedence(numbers, precedence).sound(),
        state.parse_precedence(numbers, precedence).parser.budget() <= state.parser.budget(),
    decreases state.parser.budget(), 0int,
{
    lemma_advanced(state.parser);
    let first = CompileState { parser: state.parser.advanced(), ..state };
    match rule_of(first.parser.previous.kind).prefix {
        None => lemma_report_at(first.parser, first.parser.previous, "Expect expression."@),
        Some(rule) => {
            lemma_prefix_sound(first, numbers, rule);
            lemma_infix_loop_sound(first.prefix(numbers, rule), numbers, precedence);
        },
    }
}

/// Compiling a prefix expression keeps a compilation sound and leaves no
/// more to read than before.
pub proof fn lemma_prefix_sound(state: CompileState, numbers: Seq<Option<u64>>, rule: PrefixRule)
    requires
        state.sound(),
    ensures
        state.prefix(numbers, rule).sound(),
        state.prefix(numbers, rule).parser.budget() <= state.parser.budget(),
    decreases state.parser.budget(), 1int,
{
    match rule {
        PrefixRule::Grouping => {
            lemma_parse_precedence_sound(state, numbers, Precedence::Assignment);
            lemma_consumed(
                state.parse_precedence(numbers, Precedence::Assignment).parser,
                TokenType::RightParen,
                "Expect ')' after expression."@,
            );
        },
        PrefixRule::Unary => {
            lemma_parse_precedence_sound(state, numbers, Precedence::Unary);
            lemma_emit_op_well_formed(
                state.parse_precedence(numbers, Precedence::Unary).chunk,
                unary_op(state.parser.previous.kind),
                state.parser.previous.line,
            );
        },
        PrefixRule::Number => {
            lemma_load_number_wf(state.parser, state.chunk, numbers);
            match state.parser.number_value(numbers) {
                Some(bits) => lemma_emit_constant_sound(state, Value::Double(bits)),
                None => {},
            }
        },
        PrefixRule::String => lemma_string_sound(state),
        PrefixRule::Literal => lemma_emit_op_well_formed(
            state.chunk,
            literal_op(state.parser.previous.kind),
            state.parser.previous.line,
        ),
    }
}

/// Compiling the right operand of a binary operator and the operator keeps
/// a compilation sound and leaves no more to read than before.
pub proof fn lemma_binary_sound(state: CompileState, numbers: Seq<Option<u64>>)
    requires
        state.sound(),
    ensures
        state.binary(numbers).sound(),
        state.binary(numbers).parser.budget() <= state.parser.budget(),
    decreases state.parser.budget(), 1int,
{
    let stronger = rule_of(state.parser.previous.kind).precedence.stronger();
    lemma_parse_precedence_sound(state, numbers, stronger);
    lemma_emit_binary_well_formed(
        state.parse_precedence(numbers, stronger).chunk,
        state.parser.previous.kind,
        state.parser.previous.line,
    );
}

/// Compiling the infix operators that follow an operand keeps a compilation
/// sound and leaves no more to read than before.
pub proof fn lemma_infix_loop_sound(
    state: CompileState,
    numbers: Seq<Option<u64>>,
    precedence: Precedence,
)
    requires
        state.sound(),
    ensures
        state.infix_loop(numbers, precedence).sound(),
        state.infix_loop(numbers, precedence).parser.budget() <= state.parser.budget(),
    decreases state.parser.budget(), 0int,
{
    if precedence.rank() <= rule_of(state.parser.current.kind).precedence.rank() {
        lemma_advanced(state.parser);
        let first = CompileState { parser: state.parser.advanced(), ..state };
        if first.parser.budget() < state.parser.budget() {
            lemma_binary_sound(first, numbers);
            lemma_infix_loop_sound(first.binary(numbers), numbers, precedence);
        }
    }
}

/// The chunk that a compilation leaves is well formed: each byte of code
/// has its line, the code is whole instructions, and each operand names a
/// constant of the pool. Each string of the pool is a live object that the
/// root set of the heap holds.
pub proof fn lemma_compiled_sound(
    source: Seq<char>,
    numbers: Seq<Option<u64>>,
    chunk: ChunkView,
    heap: HeapView,
)
    requires
        is_ascii_chars(source),
        source.len() <= usize::MAX,
        chunk.well_formed(),
        heap.wf(),
        protects(heap, chunk.constants),
    ensures
        compiled(source, numbers, chunk, heap).sound(),
        compiled(source, numbers, chunk, heap).chunk.aligned(),
{
    let initial = ParserView::initial(ScannerView { source, current: 0, line: 1 });
    lemma_initial(source);
    lemma_advanced(initial);
    let start = CompileState { parser: initial.advanced(), chunk, heap };
    lemma_parse_precedence_sound(start, numbers, Precedence::Assignment);
    let parsed = start.parse_precedence(numbers, Precedence::Assignment);
    lemma_consumed(parsed.parser, TokenType::EOF, "Expect end of expression."@);
    let closed = CompileState {
        parser: parsed.parser.consumed(TokenType::EOF, "Expect end of expression."@),
        ..parsed
    };
    lemma_emit_op_well_formed(closed.chunk, OpCode::Return, closed.parser.previous.line);
}

/// The code of a compiled chunk can be rebuilt from its disassembly:
/// assembling the listing gives the same bytes.
pub proof fn lemma_compiled_round_trip(source: Seq<char>, numbers: Seq<Option<u64>>, heap: HeapView)
    requires
        is_ascii_chars(source),
        source.len() <= usize::MAX,
        heap.wf(),
    ensures
        ({
            let empty = ChunkView {
                code: Seq::empty(),
                lines: Seq::empty(),
                constants: Seq::empty(),
            };
            let chunk = compiled(source, numbers, empty, heap).chunk;
            assemble(chunk.listing(0)) == chunk.code
        }),
{
    let empty = ChunkView { code: Seq::empty(), lines: Seq::empty(), constants: Seq::empty() };
    lemma_compiled_sound(source, numbers, empty, heap);
    lemma_disassembly_round_trip(compiled(source, numbers, empty, heap).chunk);
}


/// What a step of a compilation does to the stack that the code will run
/// on: the chunk grows at its end, an error that was found stays found, and
/// if no error is found the code written takes a stack of at least `need`
/// values and leaves it higher by `gain`.
pub open spec fn compiles(before: CompileState, after: CompileState, need: int, gain: int) -> bool {
    &&& after.chunk.extends(before.chunk)
    &&& before.parser.had_error ==> after.parser.had_error
    &&& !after.parser.had_error ==> lifts(before.chunk, after.chunk, need, gain)
}

proof fn lemma_compiles_both(
    first: CompileState,
    second: CompileState,
    third: CompileState,
    need: int,
    gain: int,
    then_need: int,
    then_gain: int,
)
    requires
        compiles(first, second, need, gain),
        compiles(second, third, then_need, then_gain),
        need + gain >= then_need,
    ensures
        compiles(first, third, need, gain + then_gain),
{
    lemma_extends_both(first.chunk, second.chunk, third.chunk);
    if !third.parser.had_error {
        lemma_lifts_both(
            first.chunk,
            second.chunk,
            third.chunk,
            need,
            gain,
            then_need,
            then_gain,
        );
    }
}

proof fn lemma_extends_itself(chunk: ChunkView)
    ensures
        chunk.extends(chunk),
{
    assert(chunk.code =~= chunk.code.subrange(0, chunk.code.len() as int));
    assert(chunk.constants =~= chunk.constants.subrange(0, chunk.constants.len() as int));
}

/// The instruction that loads a new constant leaves one more value on the
/// stack.
proof fn lemma_load_constant_lifts(parser: ParserView, chunk: ChunkView, value: Value)
    requires
        parser.wf(),
    ensures
        load_constant(parser, chunk, value).1.extends(chunk),
        parser.had_error ==> load_constant(parser, chunk, value).0.had_error,
        !load_constant(parser, chunk, value).0.had_error ==> lifts(
            chunk,
            load_constant(parser, chunk, value).1,
            0,
            1,
        ),
{
    let index = chunk.constants.len();
    let end = chunk.code.len() as int;
    let after = load_constant(parser, chunk, value).1;
    lemma_report_at(parser, parser.previous, "Too many constants in one chunk."@);
    assert(chunk.code =~= after.code.subrange(0, end));
    assert(chunk.constants =~= after.constants.subrange(0, index as int));
    if index <= MAX_LONG_INDEX {
        if index > MAX_SHORT_INDEX {
            lemma_long_index_bytes(index as u32);
        }
        assert forall|later: ChunkView, top: int|
            later.extends(after) && top - 1 >= 0 && #[trigger] later.balanced_from(
                after.code.len() as int,
                top,
            ) implies later.balanced_from(end, top - 1) by {
            assert(later.code[end] == after.code[end]);
            assert(later.code[end + 1] == after.code[end + 1]);
            assert(later.constants.len() >= after.constants.len());
            if index > MAX_SHORT_INDEX {
                assert(later.code[end + 2] == after.code[end + 2]);
                assert(later.code[end + 3] == after.code[end + 3]);
                assert(after.code[end] == OpCode::ConstantLong.byte());
                assert(after.code[end + 1] == long_index_bytes(index as u32)[0]);
                assert(after.code[end + 2] == long_index_bytes(index as u32)[1]);
                assert(after.code[end + 3] == long_index_bytes(index as u32)[2]);
                assert(later.instruction_at(end));
            } else {
                assert(after.code[end] == OpCode::Constant.byte());
                assert(after.code[end + 1] == index as u8);
                assert(later.instruction_at(end));
            }
        }
    }
}

/// The opcodes of a binary operator take two values and leave one.
proof fn lemma_emit_binary_lifts(chunk: ChunkView, kind: TokenType, line: u32)
    requires
        binary_op(kind) is Some,
    ensures
        emit_binary(chunk, kind, line).extends(chunk),
        lifts(chunk, emit_binary(chunk, kind, line), 2, -1),
{
    let (op, negated) = binary_op(kind)->0;
    lemma_emit_op_lifts(chunk, op, line);
    if negated {
        let middle = chunk.emit_op(op, line);
        lemma_emit_op_lifts(middle, OpCode::Not, line);
        lemma_extends_both(chunk, middle, middle.emit_op(OpCode::Not, line));
        lemma_lifts_both(chunk, middle, middle.emit_op(OpCode::Not, line), 2, -1, 1, 0);
    }
}

/// An expression leaves one more value on the stack: the code that a
/// compilation without error writes for an expression takes any stack and
/// leaves it one value higher.
pub proof fn lemma_parse_precedence_balanced(
    state: CompileState,
    numbers: Seq<Option<u64>>,
    precedence: Precedence,
)
    requires
        state.sound(),
        precedence.rank() >= 1,
    ensures
        compiles(state, state.parse_precedence(numbers, precedence), 0, 1),
    decreases state.parser.budget(), 0int,
{
    lemma_advanced(state.parser);
    let first = CompileState { parser: state.parser.advanced(), ..state };
    lemma_extends_itself(state.chunk);
    match rule_of(first.parser.previous.kind).prefix {
        None => {
            lemma_report_at(first.parser, first.parser.previous, "Expect expression."@);
        },
        Some(rule) => {
            lemma_prefix_sound(first, numbers, rule);
            lemma_prefix_balanced(first, numbers, rule);
            let operand = first.prefix(numbers, rule);
            lemma_infix_loop_sound(operand, numbers, precedence);
            lemma_infix_loop_balanced(operand, numbers, precedence);
            lemma_compiles_both(
                first,
                operand,
                operand.infix_loop(numbers, precedence),
                0,
                1,
                1,
                0,
            );
        },
    }
}

/// A prefix expression leaves one more value on the stack.
pub proof fn lemma_prefix_balanced(state: CompileState, numbers: Seq<Option<u64>>, rule: PrefixRule)
    requires
        state.sound(),
    ensures
        compiles(state, state.prefix(numbers, rule), 0, 1),
    decreases state.parser.budget(), 1int,
{
    lemma_extends_itself(state.chunk);
    match rule {
        PrefixRule::Grouping => {
            lemma_parse_precedence_sound(state, numbers, Precedence::Assignment);
            lemma_parse_precedence_balanced(state, numbers, Precedence::Assignment);
            lemma_consumed(
                state.parse_precedence(numbers, Precedence::Assignment).parser,
                TokenType::RightParen,
                "Expect ')' after expression."@,
            );
        },
        PrefixRule::Unary => {
            lemma_parse_precedence_sound(state, numbers, Precedence::Unary);
            lemma_parse_precedence_balanced(state, numbers, Precedence::Unary);
            let operand = state.parse_precedence(numbers, Precedence::Unary);
            let op = unary_op(state.parser.previous.kind);
            lemma_emit_op_lifts(operand.chunk, op, state.parser.previous.line);
            lemma_compiles_both(
                state,
                operand,
                operand.emit_op(op, state.parser.previous.line),
                0,
                1,
                1,
                0,
            );
        },
        PrefixRule::Number => {
            lemma_report_at(state.parser, state.parser.previous, "Failed to parse number."@);
            match state.parser.number_value(numbers) {
                Some(bits) => lemma_load_constant_lifts(
                    state.parser,
                    state.chunk,
                    Value::Double(bits),
                ),
                None => {},
            }
        },
        PrefixRule::String => {
            lemma_report_at(
                state.parser,
                state.parser.previous,
                "Too many constants in one chunk."@,
            );
            lemma_report_at(state.parser, state.parser.previous, "Out of memory."@);
            let text = state.parser.previous.lexeme;
            if state.chunk.constants.len() <= MAX_LONG_INDEX && state.heap.bytes_allocated
                + object_size(text) <= HEAP_LIMIT {
                let handle = state.heap.allocated(text).1;
                lemma_load_constant_lifts(state.parser, state.chunk, Value::Object(handle));
            }
        },
        PrefixRule::Literal => {
            lemma_emit_op_lifts(
                state.chunk,
                literal_op(state.parser.previous.kind),
                state.parser.previous.line,
            );
        },
    }
}

/// A binary operator with its right operand leaves the stack as high as it
/// was with the left operand on it.
pub proof fn lemma_binary_balanced(state: CompileState, numbers: Seq<Option<u64>>)
    requires
        state.sound(),
        binary_op(state.parser.previous.kind) is Some,
    ensures
        compiles(state, state.binary(numbers), 1, 0),
    decreases state.parser.budget(), 1int,
{
    let stronger = rule_of(state.parser.previous.kind).precedence.stronger();
    lemma_parse_precedence_sound(state, numbers, stronger);
    lemma_parse_precedence_balanced(state, numbers, stronger);
    let operand = state.parse_precedence(numbers, stronger);
    let after = state.binary(numbers);
    lemma_emit_binary_lifts(operand.chunk, state.parser.previous.kind, state.parser.previous.line);
    if !operand.parser.had_error {
        lemma_lifts_weaken(state.chunk, operand.chunk, 0, 1, 1);
    }
    assert(compiles(state, operand, 1, 1));
    assert(compiles(operand, after, 2, -1));
    lemma_compiles_both(state, operand, after, 1, 1, 2, -1);
}

/// The infix operators that follow an operand leave the stack as high as it
/// was with the operand on it.
pub proof fn lemma_infix_loop_balanced(
    state: CompileState,
    numbers: Seq<Option<u64>>,
    precedence: Precedence,
)
    requires
        state.sound(),
        precedence.rank() >= 1,
    ensures
        compiles(state, state.infix_loop(numbers, precedence), 1, 0),
    decreases state.parser.budget(), 0int,
{
    lemma_extends_itself(state.chunk);
    lemma_lifts_nothing(state.chunk, 1);
    if precedence.rank() <= rule_of(state.parser.current.kind).precedence.rank() {
        lemma_advanced(state.parser);
        let first = CompileState { parser: state.parser.advanced(), ..state };
        if first.parser.budget() < state.parser.budget() {
            lemma_binary_sound(first, numbers);
            lemma_binary_balanced(first, numbers);
            let operand = first.binary(numbers);
            lemma_infix_loop_sound(operand, numbers, precedence);
            lemma_infix_loop_balanced(operand, numbers, precedence);
            lemma_compiles_both(
                first,
                operand,
                operand.infix_loop(numbers, precedence),
                1,
                0,
                1,
                0,
            );
        }
    }
}

/// The code of a source that compiles without error is balanced: run on an
/// empty stack, each instruction finds on the stack what it takes, and the
/// final `Return` finds the value of the expression.
pub proof fn lemma_compiled_balanced(
    source: Seq<char>,
    numbers: Seq<Option<u64>>,
    chunk: ChunkView,
    heap: HeapView,
)
    requires
        is_ascii_chars(source),
        source.len() <= usize::MAX,
        chunk.well_formed(),
        heap.wf(),
        protects(heap, chunk.constants),
    ensures
        !compiled(source, numbers, chunk, heap).parser.had_error ==> compiled(
            source,
            numbers,
            chunk,
            heap,
        ).chunk.balanced_from(chunk.code.len() as int, 0),
{
    let initial = ParserView::initial(ScannerView { source, current: 0, line: 1 });
    lemma_initial(source);
    lemma_advanced(initial);
    let start = CompileState { parser: initial.advanced(), chunk, heap };
    lemma_parse_precedence_sound(start, numbers, Precedence::Assignment);
    lemma_parse_precedence_balanced(start, numbers, Precedence::Assignment);
    let parsed = start.parse_precedence(numbers, Precedence::Assignment);
    lemma_consumed(parsed.parser, TokenType::EOF, "Expect end of expression."@);
    let closed = CompileState {
        parser: parsed.parser.consumed(TokenType::EOF, "Expect end of expression."@),
        ..parsed
    };
    let end = compiled(source, numbers, chunk, heap);
    if !end.parser.had_error {
        let last = closed.chunk.code.len() as int;
        assert(end.chunk.code[last] == OpCode::Return.byte());
        assert(end.chunk.instruction_at(last));
        assert(end.chunk.balanced_from(last, 1));
        assert(end.chunk.extends(parsed.chunk)) by {
            assert(parsed.chunk.code =~= end.chunk.code.subrange(0, last));
            assert(parsed.chunk.constants =~= end.chunk.constants.subrange(
                0,
                parsed.chunk.constants.len() as int,
            ));
        }
    }
}

} // verus!
