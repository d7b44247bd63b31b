//! The virtual machine: a stack machine that runs a chunk of bytecode.
//!
//! The machine does no floating-point arithmetic. When an instruction adds,
//! subtracts, multiplies or divides two numbers, the run stops with the two
//! operands taken off the stack, and the caller resumes it with the result.
//! Negation and the comparisons need no arithmetic and are done in place.

use crate::chunk::{Chunk, ChunkView, OpCode};
use crate::compiler::{
    compile, compiled, diagnostic_views, lemma_compiled_balanced, lemma_compiled_sound,
    Diagnostic, DiagnosticView,
};
use crate::heap::{
    lemma_allocation_keeps_roots, object_size, HeapView, ObjectHeap, ObjectRef, HEAP_LIMIT,
    INITIAL_GC_THRESHOLD,
};
use crate::value::{number_less, number_lt, number_neg, protects, value_eq, Value};
use crate::scanner::text_len;
use vstd::prelude::*;
use vstd::string::StringExecFns;
use vstd::utf8::is_ascii_chars;

verus! {

/// The number of values that the stack holds at most.
pub const STACK_MAX: usize = 256;

/// The two kinds of failure of an interpretation.
#[derive(Debug, Clone, Copy, PartialEq, Eq, Structural)]
pub enum InterpretError {
    CompileError,
    RuntimeError,
}

/// The arithmetic operations that the machine leaves to its caller.
#[derive(Debug, Clone, Copy, PartialEq, Eq, Structural)]
pub enum ArithmeticOp {
    Add,
    Subtract,
    Multiply,
    Divide,
}

/// What `Return` hands out to be printed.
#[derive(Debug)]
pub enum Output {
    /// A number, as its bits.
    Number(u64),
    Boolean(bool),
    Nil,
    /// The text of a string object.
    Text(String),
    /// A handle whose slot holds no object.
    InvalidObject,
}

/// The mathematical value of an [`Output`].
pub enum OutputView {
    Number(u64),
    Boolean(bool),
    Nil,
    Text(Seq<char>),
    InvalidObject,
}

impl View for Output {
    type V = OutputView;

    open spec fn view(&self) -> OutputView {
        match self {
            Output::Number(bits) => OutputView::Number(*bits),
            Output::Boolean(b) => OutputView::Boolean(*b),
            Output::Nil => OutputView::Nil,
            Output::Text(text) => OutputView::Text(text@),
            Output::InvalidObject => OutputView::InvalidObject,
        }
    }
}

/// What a run has come to.
#[derive(Debug)]
pub enum Outcome {
    /// `Return` was executed: the value to print.
    Finished(Output),
    /// An arithmetic operation on two numbers is due, the left operand
    /// first. The machine waits to be resumed with the result.
    Arithmetic(ArithmeticOp, u64, u64),
    /// The source did not compile.
    CompileError(Vec<Diagnostic>),
    /// An instruction failed: the message and the source line.
    RuntimeError(String, u32),
}

/// The mathematical value of an [`Outcome`].
pub enum OutcomeView {
    Finished(OutputView),
    Arithmetic(ArithmeticOp, u64, u64),
    CompileError(Seq<DiagnosticView>),
    RuntimeError(Seq<char>, u32),
}

impl View for Outcome {
    type V = OutcomeView;

    open spec fn view(&self) -> OutcomeView {
        match self {
            Outcome::Finished(output) => OutcomeView::Finished(output@),
            Outcome::Arithmetic(op, left, right) => OutcomeView::Arithmetic(*op, *left, *right),
            Outcome::CompileError(diagnostics) => OutcomeView::CompileError(
                diagnostic_views(diagnostics@),
            ),
            Outcome::RuntimeError(message, line) => OutcomeView::RuntimeError(message@, *line),
        }
    }
}

impl Outcome {
    /// The kind of failure, if the outcome is one.
    pub fn error(&self) -> (kind: Option<InterpretError>)
        ensures
            kind == match self@ {
                OutcomeView::CompileError(_) => Some(InterpretError::CompileError),
                OutcomeView::RuntimeError(_, _) => Some(InterpretError::RuntimeError),
                _ => None,
            },
    {
        match self {
            Outcome::CompileError(_) => Some(InterpretError::CompileError),
            Outcome::RuntimeError(_, _) => Some(InterpretError::RuntimeError),
            _ => None,
        }
    }
}

/// The heap without the roots among the first `n` of `handles`.
pub open spec fn without_roots(heap: HeapView, handles: Seq<ObjectRef>, n: int) -> HeapView
    decreases n,
{
    if n <= 0 {
        heap
    } else {
        without_roots(heap, handles, n - 1).without_root(handles[n - 1])
    }
}

/// The heap without the roots that the first `n` of `constants` hold.
pub open spec fn without_constant_roots(heap: HeapView, constants: Seq<Value>, n: int) -> HeapView
    decreases n,
{
    if n <= 0 {
        heap
    } else {
        match constants[n - 1] {
            Value::Object(handle) => without_constant_roots(heap, constants, n - 1).without_root(
                handle,
            ),
            _ => without_constant_roots(heap, constants, n - 1),
        }
    }
}

/// The mathematical value of a [`VM`].
pub struct VMView {
    pub chunk: ChunkView,
    /// The offset of the next instruction.
    pub ip: int,
    /// The stack, the top at the end.
    pub stack: Seq<Value>,
    pub heap: HeapView,
    /// The strings made by the run so far, which the machine keeps as roots.
    pub temporaries: Seq<ObjectRef>,
    /// Whether the machine waits for the result of an arithmetic operation.
    pub waiting: bool,
}

impl VMView {
    /// What holds of a machine: the stack is within its bound, each byte of
    /// code has its line, the heap is well formed, and a machine that waits
    /// has room for the result and code that is balanced on the stack with
    /// the result on it.
    pub open spec fn wf(self) -> bool {
        &&& self.stack.len() <= STACK_MAX
        &&& self.chunk.aligned()
        &&& self.heap.wf()
        &&& self.waiting ==> self.stack.len() < STACK_MAX && self.chunk.balanced_from(
            self.ip,
            self.stack.len() as int + 1,
        )
    }

    /// A new machine: no code, no lines and no constants, the next
    /// instruction at offset 0, an empty stack, a heap without slots, free
    /// slots, bytes or roots and with the initial threshold of one mebibyte,
    /// no strings kept, and nothing waited for.
    pub open spec fn initial() -> VMView {
        VMView {
            chunk: ChunkView {
                code: Seq::empty(),
                lines: Seq::empty(),
                constants: Seq::empty(),
            },
            ip: 0,
            stack: Seq::empty(),
            heap: HeapView {
                slots: Seq::empty(),
                free_list: Seq::empty(),
                bytes_allocated: 0,
                next_gc: INITIAL_GC_THRESHOLD,
                roots: Seq::empty(),
            },
            temporaries: Seq::empty(),
            waiting: false,
        }
    }

    /// Whether the machine can run on: it does not wait, and the code from
    /// `ip` on is balanced on its stack, so that each instruction finds on
    /// the stack what it takes.
    pub open spec fn ready(self) -> bool {
        !self.waiting && self.chunk.balanced_from(self.ip, self.stack.len() as int)
    }

    /// Whether each handle on the stack and in the constant pool names a
    /// live object that the root set holds: no collection frees an object
    /// that the machine still refers to.
    pub open spec fn protected(self) -> bool {
        protects(self.heap, self.stack) && protects(self.heap, self.chunk.constants)
    }

    /// The source line of the next instruction.
    pub open spec fn line(self) -> u32 {
        self.chunk.lines[self.ip]
    }

    /// The machine unchanged, and a runtime error at the next instruction.
    pub open spec fn failed(self, message: Seq<char>) -> (VMView, Option<OutcomeView>) {
        (self, Some(OutcomeView::RuntimeError(message, self.line())))
    }

    /// The machine past the next instruction.
    pub open spec fn at_next(self) -> VMView {
        VMView { ip: self.chunk.next_offset(self.ip), ..self }
    }

    /// The value at `distance` below the top of the stack.
    pub open spec fn top(self, distance: int) -> Value {
        self.stack[self.stack.len() - 1 - distance]
    }

    pub open spec fn pushed(self, value: Value) -> VMView {
        VMView { stack: self.stack.push(value), ..self }
    }

    /// The machine without the top `n` values of the stack.
    pub open spec fn popped(self, n: int) -> VMView {
        VMView { stack: self.stack.take(self.stack.len() - n), ..self }
    }

    /// Whether the value at `distance` below the top is a handle to a string.
    pub open spec fn is_string(self, distance: int) -> bool {
        match self.top(distance) {
            Value::Object(handle) => self.heap.resolves(handle),
            _ => false,
        }
    }

    /// Equality as a program sees it: two strings are equal when they hold
    /// the same text, whether they are one object or two; other values are
    /// equal as [`value_eq`] says.
    pub open spec fn equal(self, a: Value, b: Value) -> bool {
        match (a, b) {
            (Value::Object(x), Value::Object(y)) => if self.heap.resolves(x)
                && self.heap.resolves(y) {
                self.heap.text_of(x) == self.heap.text_of(y)
            } else {
                x == y
            },
            _ => value_eq(a, b),
        }
    }

    /// What is printed for a value.
    pub open spec fn output(self, value: Value) -> OutputView {
        match value {
            Value::Double(bits) => OutputView::Number(bits),
            Value::Boolean(b) => OutputView::Boolean(b),
            Value::Nil => OutputView::Nil,
            Value::Object(handle) => if self.heap.resolves(handle) {
                OutputView::Text(self.heap.text_of(handle))
            } else {
                OutputView::InvalidObject
            },
        }
    }

    /// The step of an instruction that pushes `value`.
    pub open spec fn load(self, value: Value) -> (VMView, Option<OutcomeView>) {
        if self.stack.len() >= STACK_MAX {
            self.failed("Stack overflow."@)
        } else {
            (self.at_next().pushed(value), None)
        }
    }

    /// The step of an instruction that replaces the top `n` values by
    /// `value`.
    pub open spec fn replace(self, n: int, value: Value) -> (VMView, Option<OutcomeView>) {
        (self.at_next().popped(n).pushed(value), None)
    }

    /// The step of an arithmetic instruction: with two numbers on top, they
    /// are taken off and the machine waits for the result.
    pub open spec fn arithmetic(self, op: ArithmeticOp) -> (VMView, Option<OutcomeView>) {
        match (self.top(1), self.top(0)) {
            (Value::Double(left), Value::Double(right)) => (
                VMView { waiting: true, ..self.at_next().popped(2) },
                Some(OutcomeView::Arithmetic(op, left, right)),
            ),
            _ => self.failed("Operands must be numbers."@),
        }
    }

    /// The step of a comparison: with two numbers on top, they are replaced
    /// by the answer.
    pub open spec fn comparison(self, greater: bool) -> (VMView, Option<OutcomeView>) {
        match (self.top(1), self.top(0)) {
            (Value::Double(left), Value::Double(right)) => self.replace(
                2,
                Value::Boolean(
                    if greater {
                        number_lt(right, left)
                    } else {
                        number_lt(left, right)
                    },
                ),
            ),
            _ => self.failed("Operands must be numbers."@),
        }
    }

    /// The step of `Add` on two strings: a string that holds the left text
    /// and then the right is allocated and made a root, and its handle
    /// replaces the operands.
    pub open spec fn concatenation(self) -> (VMView, Option<OutcomeView>) {
        let text = self.heap.text_of(self.top(1)->Object_0) + self.heap.text_of(
            self.top(0)->Object_0,
        );
        if self.heap.bytes_allocated + object_size(text) > HEAP_LIMIT {
            self.failed("Out of memory."@)
        } else {
            let (heap, handle) = self.heap.allocated(text);
            (
                VMView {
                    heap: heap.with_root(handle),
                    temporaries: self.temporaries.push(handle),
                    ..self.at_next().popped(2).pushed(Value::Object(handle))
                },
                None,
            )
        }
    }

    /// One step of a machine that is ready: the machine after the
    /// instruction at `ip`, and what the run has come to if it stops there.
    /// A step that fails leaves the machine as it was.
    pub open spec fn step(self) -> (VMView, Option<OutcomeView>) {
        match self.chunk.opcode_at(self.ip)->0 {
            OpCode::Return => (
                self.at_next().popped(1),
                Some(OutcomeView::Finished(self.output(self.top(0)))),
            ),
            OpCode::Constant | OpCode::ConstantLong => self.load(
                self.chunk.constants[self.chunk.operand_at(self.ip)],
            ),
            OpCode::Nil => self.load(Value::Nil),
            OpCode::True => self.load(Value::Boolean(true)),
            OpCode::False => self.load(Value::Boolean(false)),
            OpCode::Negate => match self.top(0) {
                Value::Double(bits) => self.replace(1, Value::Double(number_neg(bits))),
                _ => self.failed("Operands must be numbers."@),
            },
            OpCode::Not => self.replace(1, Value::Boolean(self.top(0).falsey())),
            OpCode::Equal => self.replace(2, Value::Boolean(self.equal(self.top(1), self.top(0)))),
            OpCode::Greater => self.comparison(true),
            OpCode::Less => self.comparison(false),
            OpCode::Add => if self.is_string(0) && self.is_string(1) {
                self.concatenation()
            } else {
                self.arithmetic(ArithmeticOp::Add)
            },
            OpCode::Subtract => self.arithmetic(ArithmeticOp::Subtract),
            OpCode::Multiply => self.arithmetic(ArithmeticOp::Multiply),
            OpCode::Divide => self.arithmetic(ArithmeticOp::Divide),
        }
    }

    /// The run of a machine that is ready, from `ip` on up to the first step
    /// at which it stops.
    pub open spec fn run(self) -> (VMView, OutcomeView)
        decreases self.chunk.code.len() - self.ip,
        when self.chunk.balanced_from(self.ip, self.stack.len() as int)
    {
        let (next, outcome) = self.step();
        match outcome {
            Some(outcome) => (next, outcome),
            None => next.run(),
        }
    }

    /// The heap without the roots that the machine keeps for the constants
    /// of its chunk and for the strings that the run made.
    pub open spec fn released(self) -> HeapView {
        without_roots(
            without_constant_roots(
                self.heap,
                self.chunk.constants,
                self.chunk.constants.len() as int,
            ),
            self.temporaries,
            self.temporaries.len() as int,
        )
    }

    /// The machine after it has taken the result of the arithmetic operation
    /// it waited for.
    pub open spec fn resumed(self, result: u64) -> VMView {
        VMView { waiting: false, ..self.pushed(Value::Double(result)) }
    }
}

/// The machine with the source `source` compiled into a new chunk, before
/// the chunk is run: the roots of the program before are released, the
/// stack is empty, and the next instruction is the first.
pub open spec fn loaded(machine: VMView, source: Seq<char>, numbers: Seq<Option<u64>>) -> VMView {
    let empty = ChunkView { code: Seq::empty(), lines: Seq::empty(), constants: Seq::empty() };
    let end = compiled(source, numbers, empty, machine.released());
    VMView {
        chunk: end.chunk,
        ip: 0,
        stack: Seq::empty(),
        heap: end.heap,
        temporaries: Seq::empty(),
        waiting: false,
    }
}

/// The machine after the interpretation of `source`, and what it has come
/// to: the roots of the program before are released, the source is compiled
/// into a new chunk, and the chunk is run from its start.
pub open spec fn interpreted(machine: VMView, source: Seq<char>, numbers: Seq<Option<u64>>) -> (
    VMView,
    OutcomeView,
) {
    let empty = ChunkView { code: Seq::empty(), lines: Seq::empty(), constants: Seq::empty() };
    let end = compiled(source, numbers, empty, machine.released());
    if end.parser.had_error {
        (loaded(machine, source, numbers), OutcomeView::CompileError(end.parser.diagnostics))
    } else {
        loaded(machine, source, numbers).run()
    }
}


/// The value of what a step has come to.
pub open spec fn step_view(outcome: Option<Outcome>) -> Option<OutcomeView> {
    match outcome {
        Some(outcome) => Some(outcome@),
        None => None,
    }
}

/// The virtual machine: the chunk it runs, the offset of the next
/// instruction, the stack, and the heap.
pub struct VM {
    chunk: Chunk,
    ip: usize,
    stack: Vec<Value>,
    heap: ObjectHeap,
    temporaries: Vec<ObjectRef>,
    waiting: bool,
}

impl View for VM {
    type V = VMView;

    closed spec fn view(&self) -> VMView {
        VMView {
            chunk: self.chunk@,
            ip: self.ip as int,
            stack: self.stack@,
            heap: self.heap@,
            temporaries: self.temporaries@,
            waiting: self.waiting,
        }
    }
}

impl VM {
    /// What holds of a machine between two operations: see [`VMView::wf`].
    pub closed spec fn wf(&self) -> bool {
        self@.wf() && self.heap.wf()
    }

    /// A machine with an empty chunk, an empty stack and an empty heap: see
    /// [`VMView::initial`].
    pub fn init() -> (vm: VM)
        ensures
            vm.wf(),
            vm@ == VMView::initial(),
    {
        let heap = ObjectHeap::new();
        proof {
            heap.lemma_wf();
        }
        let vm = VM {
            chunk: Chunk::new(),
            ip: 0,
            stack: Vec::new(),
            heap,
            temporaries: Vec::new(),
            waiting: false,
        };
        proof {
            let first = VMView::initial();
            assert(vm@.chunk.code =~= first.chunk.code);
            assert(vm@.chunk.lines =~= first.chunk.lines);
            assert(vm@.chunk.constants =~= first.chunk.constants);
            assert(vm@.stack =~= first.stack);
            assert(vm@.temporaries =~= first.temporaries);
        }
        vm
    }

    /// Interprets `program`: the roots of the program before are released,
    /// the source is compiled into a new chunk, and the chunk is run from
    /// its start until the run stops. `numbers` holds the converted number
    /// literals of the source, in the order of the scanner's `Number` tokens.
    pub fn interpret(&mut self, program: String, numbers: &Vec<Option<u64>>) -> (outcome: Outcome)
        requires
            old(self).wf(),
            is_ascii_chars(program@),
        ensures
            final(self).wf(),
            (final(self)@, outcome@) == interpreted(old(self)@, program@, numbers@),
            final(self)@.stack.len() <= STACK_MAX,
            final(self)@.chunk.well_formed(),
            final(self)@.protected(),
    {
        let _ = text_len(program.as_str());
        self.release_roots();
        self.chunk = Chunk::new();
        self.temporaries = Vec::new();
        self.reset_stack();
        self.ip = 0;
        self.waiting = false;
        proof {
            let empty = ChunkView {
                code: Seq::empty(),
                lines: Seq::empty(),
                constants: Seq::empty(),
            };
            assert(self.chunk@.code =~= empty.code);
            assert(self.chunk@.lines =~= empty.lines);
            assert(self.chunk@.constants =~= empty.constants);
            assert(self.chunk@ == empty);
            self.heap.lemma_wf();
            lemma_compiled_sound(program@, numbers@, empty, self.heap@);
        }
        let ghost empty = self.chunk@;
        let ghost released = self.heap@;
        match compile(program, numbers, &mut self.chunk, &mut self.heap) {
            Err(diagnostics) => {
                proof {
                    self.heap.lemma_wf();
                }
                Outcome::CompileError(diagnostics)
            },
            Ok(_) => {
                proof {
                    self.heap.lemma_wf();
                    lemma_compiled_balanced(program@, numbers@, empty, released);
                    lemma_run(self@);
                }
                self.run()
            },
        }
    }

    /// Hands the machine the result of the arithmetic operation that it
    /// waits for, and runs on until the run stops again.
    pub fn resume(&mut self, result: u64) -> (outcome: Outcome)
        requires
            old(self).wf(),
            old(self)@.waiting,
        ensures
            final(self).wf(),
            (final(self)@, outcome@) == old(self)@.resumed(result).run(),
            final(self)@.stack.len() <= STACK_MAX,
            final(self)@.chunk == old(self)@.chunk,
            old(self)@.protected() ==> final(self)@.protected(),
    {
        self.stack.push(Value::Double(result));
        self.waiting = false;
        proof {
            lemma_run(self@);
            if old(self)@.protected() {
                assert forall|i: int| 0 <= i < self@.stack.len() implies match #[trigger] self@.stack[i] {
                    Value::Object(handle) => self@.heap.roots.contains(handle)
                        && self@.heap.resolves(handle),
                    _ => true,
                } by {
                    if i < old(self)@.stack.len() {
                        assert(self@.stack[i] == old(self)@.stack[i]);
                    }
                }
            }
        }
        self.run()
    }

    /// Whether the machine waits for the result of an arithmetic operation.
    pub fn is_waiting(&self) -> (waiting: bool)
        ensures
            waiting == self@.waiting,
    {
        self.waiting
    }

    /// The number of values on the stack.
    pub fn stack_len(&self) -> (n: usize)
        ensures
            n == self@.stack.len(),
            self.wf() ==> n <= STACK_MAX,
    {
        self.stack.len()
    }

    /// The heap of the machine.
    pub fn heap(&self) -> (heap: &ObjectHeap)
        ensures
            heap@ == self@.heap,
            self.wf() ==> heap.wf(),
    {
        &self.heap
    }

    /// The chunk of the machine.
    pub fn chunk(&self) -> (chunk: &Chunk)
        ensures
            chunk@ == self@.chunk,
    {
        &self.chunk
    }

    fn run(&mut self) -> (outcome: Outcome)
        requires
            old(self).wf(),
            old(self)@.ready(),
        ensures
            final(self).wf(),
            (final(self)@, outcome@) == old(self)@.run(),
    {
        loop
            invariant
                self.wf(),
                self@.ready(),
                self@.run() == old(self)@.run(),
            decreases self@.chunk.code.len() - self@.ip,
        {
            match self.step() {
                Some(outcome) => {
                    return outcome;
                },
                None => {},
            }
        }
    }

    fn step(&mut self) -> (outcome: Option<Outcome>)
        requires
            old(self).wf(),
            old(self)@.ready(),
        ensures
            final(self).wf(),
            (final(self)@, step_view(outcome)) == old(self)@.step(),
            outcome is None ==> final(self)@.ready() && final(self)@.ip > old(self)@.ip,
    {
        proof {
            lemma_step(self@);
        }
        let start = self.ip;
        let opcode = OpCode::from(self.read_byte());
        let outcome = match opcode {
            OpCode::Return => {
                let val = self.take();
                let output = match val {
                    Value::Object(obj_ref) => match self.heap.get_string(obj_ref) {
                        Some(text) => Output::Text(text),
                        None => Output::InvalidObject,
                    },
                    Value::Double(bits) => Output::Number(bits),
                    Value::Boolean(b) => Output::Boolean(b),
                    Value::Nil => Output::Nil,
                };
                Some(Outcome::Finished(output))
            },
            OpCode::Constant => {
                if self.stack.len() >= STACK_MAX {
                    Some(self.runtime_error(start, "Stack overflow."))
                } else {
                    let constant = self.read_constant();
                    self.stack.push(constant);
                    None
                }
            },
            OpCode::ConstantLong => {
                if self.stack.len() >= STACK_MAX {
                    Some(self.runtime_error(start, "Stack overflow."))
                } else {
                    let constant = self.read_constant_long();
                    self.stack.push(constant);
                    None
                }
            },
            OpCode::Nil => self.load(start, Value::Nil),
            OpCode::True => self.load(start, Value::Boolean(true)),
            OpCode::False => self.load(start, Value::Boolean(false)),
            OpCode::Negate => {
                match *self.peek(0) {
                    Value::Double(_) => {
                        let negated = self.take().neg();
                        self.stack.push(negated);
                        None
                    },
                    _ => Some(self.runtime_error(start, "Operands must be numbers.")),
                }
            },
            OpCode::Not => {
                let val = self.take();
                self.stack.push(Value::Boolean(val.is_falsey()));
                None
            },
            OpCode::Equal => {
                let a = self.take();
                let b = self.take();
                proof {
                    assert(self.stack@ =~= old(self).stack@.take(old(self).stack@.len() - 2));
                }
                let equal = self.values_equal(&b, &a);
                self.stack.push(Value::Boolean(equal));
                None
            },
            OpCode::Greater => self.comparison(start, true),
            OpCode::Less => self.comparison(start, false),
            OpCode::Add => {
                if self.is_string(0) && self.is_string(1) {
                    self.string_concat(start)
                } else {
                    self.binary_op(start, ArithmeticOp::Add)
                }
            },
            OpCode::Subtract => self.binary_op(start, ArithmeticOp::Subtract),
            OpCode::Multiply => self.binary_op(start, ArithmeticOp::Multiply),
            OpCode::Divide => self.binary_op(start, ArithmeticOp::Divide),
        };
        proof {
            let goal = old(self)@.step();
            assert(self@.stack =~= goal.0.stack);
            assert(self@.ip == goal.0.ip);
            assert(self@.chunk == goal.0.chunk);
            assert(self@.heap == goal.0.heap);
            assert(self@.temporaries == goal.0.temporaries);
            assert(self@.waiting == goal.0.waiting);
            assert(self@ == goal.0);
            assert(step_view(outcome) == goal.1);
        }
        outcome
    }

    fn load(&mut self, start: usize, value: Value) -> (outcome: Option<Outcome>)
        requires
            start < old(self).chunk@.lines.len(),
            old(self).ip == start + 1,
        ensures
            final(self).chunk == old(self).chunk,
            final(self).heap == old(self).heap,
            final(self).temporaries == old(self).temporaries,
            final(self).waiting == old(self).waiting,
            old(self).stack@.len() >= STACK_MAX ==> final(self).ip == start && final(self).stack
                == old(self).stack && step_view(outcome) == Some(
                OutcomeView::RuntimeError("Stack overflow."@, old(self).chunk@.lines[start as int]),
            ),
            old(self).stack@.len() < STACK_MAX ==> final(self).ip == start + 1 && final(self).stack@ == old(self).stack@.push(value) && outcome is None,
    {
        if self.stack.len() >= STACK_MAX {
            return Some(self.runtime_error(start, "Stack overflow."));
        }
        self.stack.push(value);
        None
    }

    fn read_byte(&mut self) -> (byte: u8)
        requires
            old(self).ip < old(self).chunk@.code.len(),
        ensures
            byte == old(self).chunk@.code[old(self).ip as int],
            final(self).ip == old(self).ip + 1,
            final(self).chunk == old(self).chunk,
            final(self).stack == old(self).stack,
            final(self).heap == old(self).heap,
            final(self).temporaries == old(self).temporaries,
            final(self).waiting == old(self).waiting,
    {
        let code = self.chunk.code();
        let _ = code.len();
        let ret = code[self.ip];
        self.ip = self.ip + 1;
        ret
    }

    fn read_constant(&mut self) -> (value: Value)
        requires
            old(self).ip < old(self).chunk@.code.len(),
            old(self).chunk@.code[old(self).ip as int] < old(self).chunk@.constants.len(),
        ensures
            value == old(self).chunk@.constants[old(self).chunk@.code[old(self).ip as int] as int],
            final(self).ip == old(self).ip + 1,
            final(self).chunk == old(self).chunk,
            final(self).stack == old(self).stack,
            final(self).heap == old(self).heap,
            final(self).temporaries == old(self).temporaries,
            final(self).waiting == old(self).waiting,
    {
        let idx = self.read_byte();
        self.chunk.constants()[idx as usize]
    }

    fn read_constant_long(&mut self) -> (value: Value)
        requires
            old(self).ip + 2 < old(self).chunk@.code.len(),
            old(self).chunk@.code[old(self).ip as int] + 256 * old(self).chunk@.code[old(self).ip
                + 1] + 65536 * old(self).chunk@.code[old(self).ip + 2] < old(self).chunk@.constants.len(),
        ensures
            value == old(self).chunk@.constants[old(self).chunk@.code[old(self).ip as int] + 256
                * old(self).chunk@.code[old(self).ip + 1] + 65536 * old(self).chunk@.code[old(self).ip + 2]],
            final(self).ip == old(self).ip + 3,
            final(self).chunk == old(self).chunk,
            final(self).stack == old(self).stack,
            final(self).heap == old(self).heap,
            final(self).temporaries == old(self).temporaries,
            final(self).waiting == old(self).waiting,
    {
        let low = self.read_byte();
        let middle = self.read_byte();
        let high = self.read_byte();
        let idx: u32 = low as u32 + 256 * (middle as u32) + 65536 * (high as u32);
        self.chunk.constants()[idx as usize]
    }

    fn reset_stack(&mut self)
        ensures
            final(self).stack@ == Seq::<Value>::empty(),
            final(self).chunk == old(self).chunk,
            final(self).ip == old(self).ip,
            final(self).heap == old(self).heap,
            final(self).temporaries == old(self).temporaries,
            final(self).waiting == old(self).waiting,
    {
        self.stack.clear();
    }

    /// Pushes a value onto the stack, which has room for it.
    pub fn push(&mut self, value: Value)
        requires
            old(self)@.stack.len() < STACK_MAX,
        ensures
            final(self)@ == old(self)@.pushed(value),
            !old(self)@.waiting && old(self).wf() ==> final(self).wf(),
    {
        self.stack.push(value);
    }

    /// Takes the top value off the stack, which is not empty.
    pub fn pop(&mut self) -> (value: Value)
        requires
            old(self)@.stack.len() > 0,
        ensures
            value == old(self)@.top(0),
            final(self)@ == old(self)@.popped(1),
            !old(self)@.waiting && old(self).wf() ==> final(self).wf(),
    {
        self.take()
    }

    fn take(&mut self) -> (value: Value)
        requires
            old(self).stack@.len() > 0,
        ensures
            value == old(self).stack@[old(self).stack@.len() - 1],
            final(self).stack@ == old(self).stack@.take(old(self).stack@.len() - 1),
            final(self).chunk == old(self).chunk,
            final(self).ip == old(self).ip,
            final(self).heap == old(self).heap,
            final(self).temporaries == old(self).temporaries,
            final(self).waiting == old(self).waiting,
    {
        let value = self.stack.pop();
        proof {
            assert(self.stack@ =~= old(self).stack@.take(old(self).stack@.len() - 1));
        }
        match value {
            Some(value) => value,
            None => Value::Nil,
        }
    }

    /// The value at `distance` below the top of the stack.
    pub fn peek(&self, distance: usize) -> (value: &Value)
        requires
            distance < self@.stack.len(),
        ensures
            *value == self@.top(distance as int),
    {
        &self.stack[self.stack.len() - 1 - distance]
    }

    fn binary_op(&mut self, start: usize, op: ArithmeticOp) -> (outcome: Option<Outcome>)
        requires
            old(self).stack@.len() >= 2,
            start < old(self).chunk@.lines.len(),
            old(self).ip == start + 1,
        ensures
            final(self).chunk == old(self).chunk,
            final(self).heap == old(self).heap,
            final(self).temporaries == old(self).temporaries,
            outcome is Some,
            match (old(self)@.top(1), old(self)@.top(0)) {
                (Value::Double(left), Value::Double(right)) => {
                    &&& final(self).ip == start + 1
                    &&& final(self).waiting
                    &&& final(self).stack@ == old(self).stack@.take(old(self).stack@.len() - 2)
                    &&& outcome->0@ == OutcomeView::Arithmetic(op, left, right)
                },
                _ => {
                    &&& final(self).ip == start
                    &&& final(self).waiting == old(self).waiting
                    &&& final(self).stack == old(self).stack
                    &&& outcome->0@ == OutcomeView::RuntimeError(
                        "Operands must be numbers."@,
                        old(self).chunk@.lines[start as int],
                    )
                },
            },
    {
        match (*self.peek(1), *self.peek(0)) {
            (Value::Double(left), Value::Double(right)) => {
                self.take();
                self.take();
                self.waiting = true;
                proof {
                    assert(self.stack@ =~= old(self).stack@.take(old(self).stack@.len() - 2));
                }
                Some(Outcome::Arithmetic(op, left, right))
            },
            _ => Some(self.runtime_error(start, "Operands must be numbers.")),
        }
    }

    fn comparison(&mut self, start: usize, greater: bool) -> (outcome: Option<Outcome>)
        requires
            old(self).stack@.len() >= 2,
            start < old(self).chunk@.lines.len(),
            old(self).ip == start + 1,
        ensures
            final(self).chunk == old(self).chunk,
            final(self).heap == old(self).heap,
            final(self).temporaries == old(self).temporaries,
            final(self).waiting == old(self).waiting,
            match (old(self)@.top(1), old(self)@.top(0)) {
                (Value::Double(left), Value::Double(right)) => {
                    &&& final(self).ip == start + 1
                    &&& final(self).stack@ == old(self).stack@.take(
                        old(self).stack@.len() - 2,
                    ).push(
                        Value::Boolean(
                            if greater {
                                number_lt(right, left)
                            } else {
                                number_lt(left, right)
                            },
                        ),
                    )
                    &&& outcome is None
                },
                _ => {
                    &&& final(self).ip == start
                    &&& final(self).stack == old(self).stack
                    &&& step_view(outcome) == Some(
                        OutcomeView::RuntimeError(
                            "Operands must be numbers."@,
                            old(self).chunk@.lines[start as int],
                        ),
                    )
                },
            },
    {
        match (*self.peek(1), *self.peek(0)) {
            (Value::Double(left), Value::Double(right)) => {
                self.take();
                self.take();
                let answer = if greater {
                    number_less(right, left)
                } else {
                    number_less(left, right)
                };
                proof {
                    assert(self.stack@ =~= old(self).stack@.take(old(self).stack@.len() - 2));
                }
                self.stack.push(Value::Boolean(answer));
                None
            },
            _ => Some(self.runtime_error(start, "Operands must be numbers.")),
        }
    }

    fn string_concat(&mut self, start: usize) -> (outcome: Option<Outcome>)
        requires
            old(self).wf(),
            old(self)@.stack.len() >= 2,
            old(self)@.is_string(0),
            old(self)@.is_string(1),
            start < old(self).chunk@.lines.len(),
            old(self).ip == start + 1,
        ensures
            final(self).heap.wf(),
            final(self)@.heap.wf(),
            final(self).chunk == old(self).chunk,
            final(self).waiting == old(self).waiting,
            ({
                let before = VMView { ip: start as int, ..old(self)@ };
                let text = before.heap.text_of(before.top(1)->Object_0) + before.heap.text_of(
                    before.top(0)->Object_0,
                );
                if before.heap.bytes_allocated + object_size(text) > HEAP_LIMIT {
                    &&& final(self)@ == before
                    &&& step_view(outcome) == Some(
                        OutcomeView::RuntimeError("Out of memory."@, before.line()),
                    )
                } else {
                    &&& final(self)@ == (VMView {
                        ip: start + 1,
                        heap: before.heap.allocated(text).0.with_root(
                            before.heap.allocated(text).1,
                        ),
                        temporaries: before.temporaries.push(before.heap.allocated(text).1),
                        ..before.popped(2).pushed(Value::Object(before.heap.allocated(text).1))
                    })
                    &&& outcome is None
                }
            }),
    {
        let left_ref = match *self.peek(1) {
            Value::Object(obj_ref) => obj_ref,
            _ => ObjectRef(0),
        };
        let right_ref = match *self.peek(0) {
            Value::Object(obj_ref) => obj_ref,
            _ => ObjectRef(0),
        };
        let left_str = match self.heap.get_string(left_ref) {
            Some(text) => text,
            None => String::new(),
        };
        let right_str = match self.heap.get_string(right_ref) {
            Some(text) => text,
            None => String::new(),
        };
        let mut new_string = left_str;
        new_string.append(right_str.as_str());
        if !self.heap.has_room(new_string.as_str()) {
            return Some(self.runtime_error(start, "Out of memory."));
        }
        let result_ref = self.heap.alloc_string(new_string.as_str());
        self.heap.add_root(result_ref);
        proof {
            self.heap.lemma_wf();
        }
        self.temporaries.push(result_ref);
        self.take();
        self.take();
        proof {
            assert(self.stack@ =~= old(self).stack@.take(old(self).stack@.len() - 2));
        }
        self.stack.push(Value::Object(result_ref));
        None
    }

    fn values_equal(&self, a: &Value, b: &Value) -> (equal: bool)
        ensures
            equal == self@.equal(*a, *b),
    {
        match (a, b) {
            (Value::Object(x), Value::Object(y)) => {
                match (self.heap.get_string(*x), self.heap.get_string(*y)) {
                    (Some(left), Some(right)) => left == right,
                    _ => x.0 == y.0,
                }
            },
            _ => *a == *b,
        }
    }

    fn is_string(&self, distance: usize) -> (string: bool)
        requires
            distance < self@.stack.len(),
        ensures
            string == self@.is_string(distance as int),
    {
        match self.peek(distance) {
            Value::Object(obj_ref) => self.heap.get(*obj_ref).is_some(),
            _ => false,
        }
    }

    fn runtime_error(&mut self, start: usize, message: &str) -> (outcome: Outcome)
        requires
            start < old(self).chunk@.lines.len(),
        ensures
            final(self).ip == start,
            final(self).chunk == old(self).chunk,
            final(self).stack == old(self).stack,
            final(self).heap == old(self).heap,
            final(self).temporaries == old(self).temporaries,
            final(self).waiting == old(self).waiting,
            outcome@ == OutcomeView::RuntimeError(message@, old(self).chunk@.lines[start as int]),
    {
        self.ip = start;
        let line = self.chunk.lines()[start];
        Outcome::RuntimeError(message.to_owned(), line)
    }

    fn release_roots(&mut self)
        requires
            old(self).wf(),
        ensures
            final(self).heap.wf(),
            final(self).heap@ == old(self)@.released(),
            final(self).chunk == old(self).chunk,
            final(self).stack == old(self).stack,
            final(self).ip == old(self).ip,
            final(self).waiting == old(self).waiting,
    {
        let mut i: usize = 0;
        while i < self.chunk.constants().len()
            invariant
                self.heap.wf(),
                self.chunk == old(self).chunk,
                self.stack == old(self).stack,
                self.temporaries == old(self).temporaries,
                self.ip == old(self).ip,
                self.waiting == old(self).waiting,
                i <= self.chunk@.constants.len(),
                self.heap@ == without_constant_roots(
                    old(self).heap@,
                    self.chunk@.constants,
                    i as int,
                ),
            decreases self.chunk@.constants.len() - i,
        {
            match self.chunk.constants()[i] {
                Value::Object(obj_ref) => self.heap.remove_root(obj_ref),
                _ => {},
            }
            i += 1;
        }
        let ghost unrooted = self.heap@;
        let mut k: usize = 0;
        while k < self.temporaries.len()
            invariant
                self.heap.wf(),
                self.chunk == old(self).chunk,
                self.stack == old(self).stack,
                self.temporaries == old(self).temporaries,
                self.ip == old(self).ip,
                self.waiting == old(self).waiting,
                k <= self.temporaries@.len(),
                self.heap@ == without_roots(unrooted, self.temporaries@, k as int),
            decreases self.temporaries@.len() - k,
        {
            let handle = self.temporaries[k];
            self.heap.remove_root(handle);
            k += 1;
        }
    }
}


/// A step of a machine that is ready keeps the machine well formed: in
/// particular the stack stays within its bound of 256 values, and each
/// instruction finds on the stack what it takes. It keeps each object
/// protected that the machine refers to. A step that does not stop the run
/// leaves the machine ready at a later instruction.
pub proof fn lemma_step(machine: VMView)
    requires
        machine.wf(),
        machine.ready(),
    ensures
        machine.stack.len() >= machine.chunk.opcode_at(machine.ip)->0.pops(),
        machine.chunk.instruction_at(machine.ip),
        machine.step().0.wf(),
        machine.step().0.stack.len() <= STACK_MAX,
        machine.step().0.chunk == machine.chunk,
        machine.protected() ==> machine.step().0.protected(),
        machine.step().1 is None ==> machine.step().0.ready() && machine.step().0.ip
            > machine.ip,
{
    let op = machine.chunk.opcode_at(machine.ip)->0;
    let after = machine.step().0;
    if op == OpCode::Add && machine.is_string(0) && machine.is_string(1) {
        let text = machine.heap.text_of(machine.top(1)->Object_0) + machine.heap.text_of(
            machine.top(0)->Object_0,
        );
        if machine.heap.bytes_allocated + object_size(text) <= HEAP_LIMIT {
            lemma_allocation_keeps_roots(machine.heap, text);
            let handle = machine.heap.allocated(text).1;
            assert(after.heap.roots.last() == handle);
            if machine.protected() {
                assert forall|handle: ObjectRef|
                    machine.heap.roots.contains(handle) && machine.heap.resolves(
                        handle,
                    ) implies after.heap.roots.contains(handle) && after.heap.resolves(
                    handle,
                ) by {
                    let k = choose|k: int|
                        0 <= k < machine.heap.roots.len() && machine.heap.roots[k] == handle;
                    assert(after.heap.roots[k] == handle);
                }
                assert forall|i: int| 0 <= i < after.stack.len() implies match #[trigger] after.stack[i] {
                    Value::Object(handle) => after.heap.roots.contains(handle)
                        && after.heap.resolves(handle),
                    _ => true,
                } by {
                    if i < after.stack.len() - 1 {
                        assert(after.stack[i] == machine.stack[i]);
                    }
                }
                assert forall|i: int| 0 <= i < after.chunk.constants.len() implies match #[trigger] after.chunk.constants[i] {
                    Value::Object(handle) => after.heap.roots.contains(handle)
                        && after.heap.resolves(handle),
                    _ => true,
                } by {
                    assert(after.chunk.constants[i] == machine.chunk.constants[i]);
                }
            }
        }
    } else if machine.protected() {
        assert forall|i: int| 0 <= i < after.stack.len() implies match #[trigger] after.stack[i] {
            Value::Object(handle) => after.heap.roots.contains(handle) && after.heap.resolves(
                handle,
            ),
            _ => true,
        } by {
            if i < machine.stack.len() && after.stack[i] == machine.stack[i] {
            } else if op == OpCode::Constant || op == OpCode::ConstantLong {
                assert(after.stack[i] == machine.chunk.constants[machine.chunk.operand_at(
                    machine.ip,
                )]);
            }
        }
    }
}

/// A run of a machine that is ready keeps the machine well formed, the
/// stack within its bound, and each object protected that the machine
/// refers to.
pub proof fn lemma_run(machine: VMView)
    requires
        machine.wf(),
        machine.ready(),
    ensures
        machine.run().0.wf(),
        machine.run().0.stack.len() <= STACK_MAX,
        machine.run().0.chunk == machine.chunk,
        machine.protected() ==> machine.run().0.protected(),
    decreases machine.chunk.code.len() - machine.ip,
{
    lemma_step(machine);
    if machine.step().1 is None {
        lemma_run(machine.step().0);
    }
}

} // verus!
