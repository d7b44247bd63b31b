//! The bytecode chunk: instruction bytes, a line for each byte, and the
//! constant pool.
//!
//! An instruction is one opcode byte and, for the two opcodes that load a
//! constant, the constant's index: one byte after `Constant`, three bytes,
//! lowest first, after `ConstantLong`.

use crate::value::Value;
use vstd::prelude::*;

verus! {

/// The largest constant index that `Constant` can carry.
pub const MAX_SHORT_INDEX: u32 = 255;

/// The largest constant index that `ConstantLong` can carry.
pub const MAX_LONG_INDEX: u32 = 0xff_ffff;

#[derive(Copy, Clone, Debug, PartialEq, Eq, Structural)]
pub enum OpCode {
    Return,
    Constant,
    ConstantLong,
    Nil,
    True,
    False,
    Negate,
    Add,
    Subtract,
    Multiply,
    Divide,
    Not,
    Equal,
    Greater,
    Less,
}

impl OpCode {
    /// The byte that stands for the opcode in the instruction stream.
    pub open spec fn byte(self) -> u8 {
        match self {
            OpCode::Return => 0,
            OpCode::Constant => 1,
            OpCode::ConstantLong => 2,
            OpCode::Nil => 3,
            OpCode::True => 4,
            OpCode::False => 5,
            OpCode::Negate => 6,
            OpCode::Add => 7,
            OpCode::Subtract => 8,
            OpCode::Multiply => 9,
            OpCode::Divide => 10,
            OpCode::Not => 11,
            OpCode::Equal => 12,
            OpCode::Greater => 13,
            OpCode::Less => 14,
        }
    }

    /// The opcode that a byte stands for, if it stands for one.
    pub open spec fn of_byte(value: u8) -> Option<OpCode> {
        if value == 0 {
            Some(OpCode::Return)
        } else if value == 1 {
            Some(OpCode::Constant)
        } else if value == 2 {
            Some(OpCode::ConstantLong)
        } else if value == 3 {
            Some(OpCode::Nil)
        } else if value == 4 {
            Some(OpCode::True)
        } else if value == 5 {
            Some(OpCode::False)
        } else if value == 6 {
            Some(OpCode::Negate)
        } else if value == 7 {
            Some(OpCode::Add)
        } else if value == 8 {
            Some(OpCode::Subtract)
        } else if value == 9 {
            Some(OpCode::Multiply)
        } else if value == 10 {
            Some(OpCode::Divide)
        } else if value == 11 {
            Some(OpCode::Not)
        } else if value == 12 {
            Some(OpCode::Equal)
        } else if value == 13 {
            Some(OpCode::Greater)
        } else if value == 14 {
            Some(OpCode::Less)
        } else {
            None
        }
    }

    /// The number of operand bytes that follow the opcode.
    pub open spec fn operand_width(self) -> int {
        match self {
            OpCode::Constant => 1,
            OpCode::ConstantLong => 3,
            _ => 0,
        }
    }

    /// The number of values that the instruction takes from the stack.
    pub open spec fn pops(self) -> int {
        match self {
            OpCode::Constant | OpCode::ConstantLong | OpCode::Nil | OpCode::True | OpCode::False => 0,
            OpCode::Return | OpCode::Negate | OpCode::Not => 1,
            _ => 2,
        }
    }

    /// The change of the height of the stack by the instruction: what it
    /// leaves on the stack less what it takes.
    pub open spec fn net(self) -> int {
        match self {
            OpCode::Constant | OpCode::ConstantLong | OpCode::Nil | OpCode::True | OpCode::False => 1,
            OpCode::Negate | OpCode::Not => 0,
            _ => -1,
        }
    }

    /// The byte that stands for the opcode.
    pub fn to_byte(self) -> (value: u8)
        ensures
            value == self.byte(),
            OpCode::of_byte(value) == Some(self),
    {
        match self {
            OpCode::Return => 0,
            OpCode::Constant => 1,
            OpCode::ConstantLong => 2,
            OpCode::Nil => 3,
            OpCode::True => 4,
            OpCode::False => 5,
            OpCode::Negate => 6,
            OpCode::Add => 7,
            OpCode::Subtract => 8,
            OpCode::Multiply => 9,
            OpCode::Divide => 10,
            OpCode::Not => 11,
            OpCode::Equal => 12,
            OpCode::Greater => 13,
            OpCode::Less => 14,
        }
    }

    /// The opcode that `value` stands for. A byte above 14 stands for none.
    pub fn from(value: u8) -> (op: OpCode)
        requires
            value <= 14,
        ensures
            OpCode::of_byte(value) == Some(op),
            op.byte() == value,
    {
        match value {
            0 => OpCode::Return,
            1 => OpCode::Constant,
            2 => OpCode::ConstantLong,
            3 => OpCode::Nil,
            4 => OpCode::True,
            5 => OpCode::False,
            6 => OpCode::Negate,
            7 => OpCode::Add,
            8 => OpCode::Subtract,
            9 => OpCode::Multiply,
            10 => OpCode::Divide,
            11 => OpCode::Not,
            12 => OpCode::Equal,
            13 => OpCode::Greater,
            _ => OpCode::Less,
        }
    }
}

/// An index into a chunk's constant pool.
#[derive(Copy, Clone, Debug)]
pub struct ConstantIdx(pub u32);

/// A chunk of bytecode.
pub struct Chunk {
    code: Vec<u8>,
    lines: Vec<u32>,
    constants: Vec<Value>,
}

/// The mathematical value of a [`Chunk`].
pub struct ChunkView {
    pub code: Seq<u8>,
    pub lines: Seq<u32>,
    pub constants: Seq<Value>,
}

/// One instruction as the disassembler shows it.
#[derive(Copy, Clone, Debug)]
pub struct Instruction {
    /// Where the instruction starts in the code.
    pub offset: usize,
    /// The source line of the instruction.
    pub line: u32,
    /// Whether the byte before the instruction belongs to the same line.
    pub same_line: bool,
    pub opcode: OpCode,
    /// For an opcode that loads a constant: the constant's index and value.
    pub constant: Option<(u32, Value)>,
}

/// The three bytes of a long constant index, lowest first.
pub open spec fn long_index_bytes(index: u32) -> Seq<u8> {
    seq![(index % 256) as u8, (index / 256 % 256) as u8, (index / 65536 % 256) as u8]
}

impl ChunkView {
    /// The opcode at `offset`.
    pub open spec fn opcode_at(self, offset: int) -> Option<OpCode> {
        OpCode::of_byte(self.code[offset])
    }

    /// The constant index that the operand bytes after `offset` spell.
    pub open spec fn operand_at(self, offset: int) -> int {
        match self.opcode_at(offset) {
            Some(OpCode::Constant) => self.code[offset + 1] as int,
            Some(OpCode::ConstantLong) => self.code[offset + 1] as int + 256 * (self.code[offset
                + 2] as int) + 65536 * (self.code[offset + 3] as int),
            _ => 0,
        }
    }

    /// Whether a whole instruction starts at `offset`: a byte that stands for
    /// an opcode, its operand bytes within the code, and the operand the index
    /// of a constant in the pool.
    pub open spec fn instruction_at(self, offset: int) -> bool {
        &&& 0 <= offset < self.code.len()
        &&& self.opcode_at(offset) is Some
        &&& offset + self.opcode_at(offset)->0.operand_width() < self.code.len()
        &&& self.opcode_at(offset)->0.operand_width() > 0 ==> self.operand_at(offset)
            < self.constants.len()
    }

    /// Where the instruction after the one at `offset` starts.
    pub open spec fn next_offset(self, offset: int) -> int {
        offset + 1 + self.opcode_at(offset)->0.operand_width()
    }

    /// Whether the code from `offset` to its end is a sequence of whole
    /// instructions.
    pub open spec fn instructions_from(self, offset: int) -> bool
        decreases self.code.len() - offset,
    {
        if offset >= self.code.len() {
            offset == self.code.len()
        } else {
            self.instruction_at(offset) && self.instructions_from(self.next_offset(offset))
        }
    }

    /// Whether the instructions from `offset` on, run on a stack of `height`
    /// values, find on the stack what they take, up to a `Return`.
    pub open spec fn balanced_from(self, offset: int, height: int) -> bool
        decreases self.code.len() - offset,
    {
        &&& self.instruction_at(offset)
        &&& height >= self.opcode_at(offset)->0.pops()
        &&& self.opcode_at(offset) == Some(OpCode::Return) || self.balanced_from(
            self.next_offset(offset),
            height + self.opcode_at(offset)->0.net(),
        )
    }

    /// Whether each byte of code has its line.
    pub open spec fn aligned(self) -> bool {
        self.lines.len() == self.code.len()
    }

    /// A chunk is well formed when each byte of code has its line and the
    /// code is a sequence of whole instructions, each operand naming a
    /// constant of the pool.
    pub open spec fn well_formed(self) -> bool {
        self.aligned() && self.instructions_from(0)
    }

    /// The instruction at `offset` as the disassembler shows it.
    pub open spec fn decode_at(self, offset: int) -> Instruction {
        Instruction {
            offset: offset as usize,
            line: self.lines[offset],
            same_line: offset > 0 && self.lines[offset] == self.lines[offset - 1],
            opcode: self.opcode_at(offset)->0,
            constant: if self.opcode_at(offset)->0.operand_width() > 0 {
                Some(
                    (self.operand_at(offset) as u32, self.constants[self.operand_at(offset)]),
                )
            } else {
                None
            },
        }
    }

    /// The disassembly of the code from `offset` on.
    pub open spec fn listing(self, offset: int) -> Seq<Instruction>
        decreases self.code.len() - offset,
    {
        if self.instruction_at(offset) {
            seq![self.decode_at(offset)] + self.listing(self.next_offset(offset))
        } else {
            Seq::empty()
        }
    }

    /// The chunk after `bytes` were appended to the code, each with `line`.
    pub open spec fn emit(self, bytes: Seq<u8>, line: u32) -> ChunkView {
        ChunkView {
            code: self.code + bytes,
            lines: self.lines + Seq::new(bytes.len(), |i: int| line),
            constants: self.constants,
        }
    }

    /// The chunk after the opcode `op` was appended.
    pub open spec fn emit_op(self, op: OpCode, line: u32) -> ChunkView {
        self.emit(seq![op.byte()], line)
    }

    /// Whether `self` is `earlier` with more code and more constants at the
    /// end.
    pub open spec fn extends(self, earlier: ChunkView) -> bool {
        earlier.code.is_prefix_of(self.code) && earlier.constants.is_prefix_of(self.constants)
    }

    /// The chunk with one more constant.
    pub open spec fn with_constant(self, value: Value) -> ChunkView {
        ChunkView { code: self.code, lines: self.lines, constants: self.constants.push(value) }
    }
}

impl Instruction {
    /// The constant index that the instruction carries, or 0 if it carries
    /// none.
    pub open spec fn index(self) -> u32 {
        match self.constant {
            Some(pair) => pair.0,
            None => 0,
        }
    }

    /// The bytes that an assembler writes for the instruction.
    pub open spec fn encoding(self) -> Seq<u8> {
        match self.opcode {
            OpCode::Constant => seq![self.opcode.byte(), self.index() as u8],
            OpCode::ConstantLong => seq![self.opcode.byte()] + long_index_bytes(self.index()),
            _ => seq![self.opcode.byte()],
        }
    }
}

/// The bytes that an assembler writes for a disassembly.
pub open spec fn assemble(listing: Seq<Instruction>) -> Seq<u8>
    decreases listing.len(),
{
    if listing.len() == 0 {
        Seq::empty()
    } else {
        listing[0].encoding() + assemble(listing.drop_first())
    }
}

impl View for Chunk {
    type V = ChunkView;

    closed spec fn view(&self) -> ChunkView {
        ChunkView { code: self.code@, lines: self.lines@, constants: self.constants@ }
    }
}

impl Chunk {
    /// An empty chunk.
    pub fn new() -> (chunk: Chunk)
        ensures
            chunk@.code.len() == 0,
            chunk@.lines.len() == 0,
            chunk@.constants.len() == 0,
            chunk@.well_formed(),
    {
        Chunk { code: Vec::new(), lines: Vec::new(), constants: Vec::new() }
    }

    /// The instruction bytes.
    pub fn code(&self) -> (code: &Vec<u8>)
        ensures
            code@ == self@.code,
    {
        &self.code
    }

    /// The line of each byte of code.
    pub fn lines(&self) -> (lines: &Vec<u32>)
        ensures
            lines@ == self@.lines,
    {
        &self.lines
    }

    /// The constant pool.
    pub fn constants(&self) -> (constants: &Vec<Value>)
        ensures
            constants@ == self@.constants,
    {
        &self.constants
    }

    /// Appends `constant` to the pool and returns its index.
    pub fn add_constant(&mut self, constant: Value) -> (index: ConstantIdx)
        requires
            old(self)@.constants.len() <= u32::MAX,
        ensures
            final(self)@ == old(self)@.with_constant(constant),
            index.0 == old(self)@.constants.len(),
            old(self)@.aligned() ==> final(self)@.aligned(),
    {
        let index = self.constants.len();
        self.constants.push(constant);
        ConstantIdx(index as u32)
    }

    /// Appends the opcode `code`, generated by source line `line`.
    pub fn add_code_op(&mut self, code: OpCode, line: u32)
        ensures
            final(self)@ == old(self)@.emit_op(code, line),
            old(self)@.aligned() ==> final(self)@.aligned(),
    {
        self.code.push(code.to_byte());
        self.lines.push(line);
        proof {
            assert(self@.lines =~= old(self)@.emit_op(code, line).lines);
            assert(self@.code =~= old(self)@.emit_op(code, line).code);
        }
    }

    /// Appends a one-byte constant index, generated by source line `line`.
    pub fn add_code_constant(&mut self, constant: ConstantIdx, line: u32)
        requires
            constant.0 <= MAX_SHORT_INDEX,
        ensures
            final(self)@ == old(self)@.emit(seq![constant.0 as u8], line),
            old(self)@.aligned() ==> final(self)@.aligned(),
    {
        self.code.push(constant.0 as u8);
        self.lines.push(line);
        proof {
            assert(self@.lines =~= old(self)@.emit(seq![constant.0 as u8], line).lines);
            assert(self@.code =~= old(self)@.emit(seq![constant.0 as u8], line).code);
        }
    }

    /// Appends a three-byte constant index, lowest byte first, generated by
    /// source line `line`.
    pub fn add_code_constant_long(&mut self, constant: ConstantIdx, line: u32)
        requires
            constant.0 <= MAX_LONG_INDEX,
        ensures
            final(self)@ == old(self)@.emit(long_index_bytes(constant.0), line),
            old(self)@.aligned() ==> final(self)@.aligned(),
    {
        self.code.push((constant.0 % 256) as u8);
        self.lines.push(line);
        self.code.push((constant.0 / 256 % 256) as u8);
        self.lines.push(line);
        self.code.push((constant.0 / 65536 % 256) as u8);
        self.lines.push(line);
        proof {
            assert(self@.code =~= old(self)@.emit(long_index_bytes(constant.0), line).code);
            assert(self@.lines =~= old(self)@.emit(long_index_bytes(constant.0), line).lines);
        }
    }

    /// Disassembles the whole chunk, instruction by instruction.
    pub fn disassemble_all(&self) -> (out: Vec<Instruction>)
        requires
            self@.well_formed(),
        ensures
            out@ == self@.listing(0),
    {
        let mut out: Vec<Instruction> = Vec::new();
        let mut offset: usize = 0;
        while offset < self.code.len()
            invariant
                self@.well_formed(),
                self@.instructions_from(offset as int),
                offset <= self@.code.len(),
                out@ + self@.listing(offset as int) == self@.listing(0),
            decreases self@.code.len() - offset,
        {
            let ghost before = out@;
            let (instruction, next) = self.disassemble(offset);
            out.push(instruction);
            proof {
                assert(out@ + self@.listing(next as int) =~= before + self@.listing(
                    offset as int,
                ));
            }
            offset = next;
        }
        proof {
            assert(out@ + self@.listing(offset as int) =~= out@);
        }
        out
    }

    /// Disassembles the instruction at `offset`, and returns with it the
    /// offset of the next instruction.
    pub fn disassemble(&self, offset: usize) -> (out: (Instruction, usize))
        requires
            self@.aligned(),
            self@.instruction_at(offset as int),
        ensures
            out.0 == self@.decode_at(offset as int),
            out.1 == self@.next_offset(offset as int),
    {
        let _ = self.code.len();
        let line = self.lines[offset];
        let same_line = offset > 0 && self.lines[offset - 1] == line;
        let opcode = OpCode::from(self.code[offset]);
        match opcode {
            OpCode::Constant => {
                let index: u32 = self.code[offset + 1] as u32;
                let value = self.constants[index as usize];
                (
                    Instruction { offset, line, same_line, opcode, constant: Some((index, value)) },
                    offset + 2,
                )
            },
            OpCode::ConstantLong => {
                let index: u32 = self.code[offset + 1] as u32 + 256 * (self.code[offset
                    + 2] as u32) + 65536 * (self.code[offset + 3] as u32);
                let value = self.constants[index as usize];
                (
                    Instruction { offset, line, same_line, opcode, constant: Some((index, value)) },
                    offset + 4,
                )
            },
            _ => (Instruction { offset, line, same_line, opcode, constant: None }, offset + 1),
        }
    }
}


/// Code that is a sequence of whole instructions stays one when the chunk
/// grows at the end by whole instructions and by constants.
pub proof fn lemma_extension_keeps_instructions(earlier: ChunkView, later: ChunkView, offset: int)
    requires
        later.extends(earlier),
        0 <= offset,
        earlier.instructions_from(offset),
        later.instructions_from(earlier.code.len() as int),
    ensures
        later.instructions_from(offset),
    decreases earlier.code.len() - offset,
{
    if offset < earlier.code.len() {
        let width = earlier.opcode_at(offset)->0.operand_width();
        assert(later.code[offset] == earlier.code[offset]);
        if width > 0 {
            assert(later.code[offset + 1] == earlier.code[offset + 1]);
        }
        if width == 3 {
            assert(later.code[offset + 2] == earlier.code[offset + 2]);
            assert(later.code[offset + 3] == earlier.code[offset + 3]);
        }
        assert(later.instruction_at(offset));
        lemma_extension_keeps_instructions(earlier, later, earlier.next_offset(offset));
    }
}

/// Appending an opcode that takes no operand to a well-formed chunk gives a
/// well-formed chunk.
pub proof fn lemma_emit_op_well_formed(chunk: ChunkView, op: OpCode, line: u32)
    requires
        chunk.well_formed(),
        op.operand_width() == 0,
    ensures
        chunk.emit_op(op, line).well_formed(),
{
    let later = chunk.emit_op(op, line);
    let end = chunk.code.len() as int;
    assert(later.code[end] == op.byte());
    assert(later.instruction_at(end));
    assert(later.instructions_from(end + 1));
    lemma_extension_keeps_instructions(chunk, later, 0);
}

/// The three bytes of a long index spell the index.
pub proof fn lemma_long_index_bytes(index: u32)
    requires
        index <= MAX_LONG_INDEX,
    ensures
        long_index_bytes(index)[0] as int + 256 * (long_index_bytes(index)[1] as int) + 65536 * (
        long_index_bytes(index)[2] as int) == index,
{
}

/// The disassembly of a run of whole instructions, assembled again, is the
/// code it was made from.
pub proof fn lemma_assemble_listing(chunk: ChunkView, offset: int)
    requires
        0 <= offset,
        chunk.instructions_from(offset),
    ensures
        assemble(chunk.listing(offset)) == chunk.code.subrange(offset, chunk.code.len() as int),
    decreases chunk.code.len() - offset,
{
    let end = chunk.code.len() as int;
    if offset >= end {
        assert(chunk.code.subrange(offset, end) =~= Seq::<u8>::empty());
    } else {
        let next = chunk.next_offset(offset);
        let first = chunk.decode_at(offset);
        lemma_assemble_listing(chunk, next);
        assert(chunk.listing(offset).drop_first() =~= chunk.listing(next));
        assert(first.encoding() =~= chunk.code.subrange(offset, next));
        assert(chunk.code.subrange(offset, next) + chunk.code.subrange(next, end)
            =~= chunk.code.subrange(offset, end));
    }
}

/// A well-formed chunk can be rebuilt from its disassembly: assembling the
/// listing gives the code back, byte for byte.
pub proof fn lemma_disassembly_round_trip(chunk: ChunkView)
    requires
        chunk.well_formed(),
    ensures
        assemble(chunk.listing(0)) == chunk.code,
{
    lemma_assemble_listing(chunk, 0);
    assert(chunk.code.subrange(0, chunk.code.len() as int) =~= chunk.code);
}

/// Appending bytes to a chunk, each with its line, keeps one line for each
/// byte of code; adding a constant does too.
pub proof fn lemma_alignment_kept(chunk: ChunkView, bytes: Seq<u8>, line: u32, value: Value)
    requires
        chunk.aligned(),
    ensures
        chunk.emit(bytes, line).aligned(),
        chunk.with_constant(value).aligned(),
{
}

/// Whether the code written between `before` and `after` takes a stack of
/// at least `need` values and leaves it higher by `gain`: whatever is
/// written after it, if what follows is balanced on the higher stack, the
/// whole is balanced from where `before` ends.
pub open spec fn lifts(before: ChunkView, after: ChunkView, need: int, gain: int) -> bool {
    forall|later: ChunkView, top: int|
        later.extends(after) && top - gain >= need && #[trigger] later.balanced_from(
            after.code.len() as int,
            top,
        ) ==> later.balanced_from(before.code.len() as int, top - gain)
}

/// Code that takes a stack of some height takes a higher one.
pub proof fn lemma_lifts_weaken(
    before: ChunkView,
    after: ChunkView,
    need: int,
    more: int,
    gain: int,
)
    requires
        lifts(before, after, need, gain),
        more >= need,
    ensures
        lifts(before, after, more, gain),
{
}

/// No code leaves the stack as it is.
pub proof fn lemma_lifts_nothing(chunk: ChunkView, need: int)
    ensures
        lifts(chunk, chunk, need, 0),
{
}

/// Code after code lifts the stack by the sum of what each lifts it by.
pub proof fn lemma_lifts_both(
    first: ChunkView,
    second: ChunkView,
    third: ChunkView,
    need: int,
    gain: int,
    then_need: int,
    then_gain: int,
)
    requires
        lifts(first, second, need, gain),
        lifts(second, third, then_need, then_gain),
        third.extends(second),
        need + gain >= then_need,
    ensures
        lifts(first, third, need, gain + then_gain),
{
    assert forall|later: ChunkView, top: int|
        later.extends(third) && top - (gain + then_gain) >= need && #[trigger] later.balanced_from(
            third.code.len() as int,
            top,
        ) implies later.balanced_from(first.code.len() as int, top - (gain + then_gain)) by {
        lemma_extends_both(second, third, later);
        assert(later.balanced_from(second.code.len() as int, top - then_gain));
    }
}

/// A chunk that extends one that extends another extends the other.
pub proof fn lemma_extends_both(first: ChunkView, second: ChunkView, third: ChunkView)
    requires
        second.extends(first),
        third.extends(second),
    ensures
        third.extends(first),
{
    assert forall|i: int| 0 <= i < first.code.len() implies first.code[i] == third.code[i] by {
        assert(first.code[i] == second.code[i]);
    }
    assert forall|i: int| 0 <= i < first.constants.len() implies first.constants[i]
        == third.constants[i] by {
        assert(first.constants[i] == second.constants[i]);
    }
    assert(first.code =~= third.code.subrange(0, first.code.len() as int));
    assert(first.constants =~= third.constants.subrange(0, first.constants.len() as int));
}

/// An opcode without operand takes and leaves what it takes and leaves.
pub proof fn lemma_emit_op_lifts(chunk: ChunkView, op: OpCode, line: u32)
    requires
        op.operand_width() == 0,
        op != OpCode::Return,
    ensures
        lifts(chunk, chunk.emit_op(op, line), op.pops(), op.net()),
        chunk.emit_op(op, line).extends(chunk),
{
    let after = chunk.emit_op(op, line);
    let end = chunk.code.len() as int;
    assert(chunk.code =~= after.code.subrange(0, end));
    assert(chunk.constants =~= after.constants.subrange(0, chunk.constants.len() as int));
    assert forall|later: ChunkView, top: int|
        later.extends(after) && top - op.net() >= op.pops() && #[trigger] later.balanced_from(
            after.code.len() as int,
            top,
        ) implies later.balanced_from(end, top - op.net()) by {
        assert(later.code[end] == after.code[end]);
        assert(after.code[end] == op.byte());
    }
}

} // verus!
