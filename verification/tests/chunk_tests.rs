use rlox::chunk::{Chunk, ConstantIdx, OpCode};
use rlox::value::Value;

const ALL_OPCODES: [OpCode; 15] = [
    OpCode::Return,
    OpCode::Constant,
    OpCode::ConstantLong,
    OpCode::Nil,
    OpCode::True,
    OpCode::False,
    OpCode::Negate,
    OpCode::Add,
    OpCode::Subtract,
    OpCode::Multiply,
    OpCode::Divide,
    OpCode::Not,
    OpCode::Equal,
    OpCode::Greater,
    OpCode::Less,
];

#[test]
fn opcodes_are_the_bytes_from_0_to_14() {
    for (byte, op) in ALL_OPCODES.iter().enumerate() {
        assert_eq!(op.to_byte(), byte as u8);
        assert_eq!(OpCode::from(byte as u8), *op);
    }
}

#[test]
fn a_new_chunk_is_empty() {
    let chunk = Chunk::new();
    assert!(chunk.code().is_empty());
    assert!(chunk.lines().is_empty());
    assert!(chunk.constants().is_empty());
    assert!(chunk.disassemble_all().is_empty());
}

#[test]
fn an_opcode_takes_one_byte_and_one_line() {
    let mut chunk = Chunk::new();
    chunk.add_code_op(OpCode::Nil, 7);
    chunk.add_code_op(OpCode::Return, 8);
    assert_eq!(chunk.code(), &vec![3u8, 0]);
    assert_eq!(chunk.lines(), &vec![7u32, 8]);
}

#[test]
fn a_short_index_takes_one_byte_and_one_line() {
    let mut chunk = Chunk::new();
    let index = chunk.add_constant(Value::Nil);
    assert_eq!(index.0, 0);
    chunk.add_code_op(OpCode::Constant, 3);
    chunk.add_code_constant(index, 3);
    assert_eq!(chunk.code(), &vec![1u8, 0]);
    assert_eq!(chunk.lines(), &vec![3u32, 3]);
    chunk.add_code_constant(ConstantIdx(255), 4);
    assert_eq!(chunk.code(), &vec![1u8, 0, 255]);
    assert_eq!(chunk.lines().len(), chunk.code().len());
}

#[test]
fn a_long_index_takes_three_bytes_lowest_first_and_three_lines() {
    let mut chunk = Chunk::new();
    chunk.add_code_op(OpCode::ConstantLong, 9);
    chunk.add_code_constant_long(ConstantIdx(0x01_02_03), 9);
    assert_eq!(chunk.code(), &vec![2u8, 0x03, 0x02, 0x01]);
    assert_eq!(chunk.lines(), &vec![9u32, 9, 9, 9]);
    chunk.add_code_constant_long(ConstantIdx(0xff_ffff), 10);
    assert_eq!(&chunk.code()[4..], &[0xffu8, 0xff, 0xff]);
    assert_eq!(chunk.lines().len(), chunk.code().len());
}

#[test]
fn constants_are_numbered_in_order() {
    let mut chunk = Chunk::new();
    for expected in 0..300u32 {
        let index = chunk.add_constant(Value::Boolean(expected % 2 == 0));
        assert_eq!(index.0, expected);
    }
    assert_eq!(chunk.constants().len(), 300);
    assert!(chunk.code().is_empty());
}

fn sample() -> Chunk {
    let mut chunk = Chunk::new();
    for i in 0..300u64 {
        chunk.add_constant(Value::Double(i));
    }
    chunk.add_code_op(OpCode::Constant, 1);
    chunk.add_code_constant(ConstantIdx(7), 1);
    chunk.add_code_op(OpCode::ConstantLong, 1);
    chunk.add_code_constant_long(ConstantIdx(299), 1);
    chunk.add_code_op(OpCode::Add, 2);
    chunk.add_code_op(OpCode::Return, 2);
    chunk
}

#[test]
fn disassembly_shows_offset_line_opcode_and_constant() {
    let chunk = sample();
    let (first, next) = chunk.disassemble(0);
    assert_eq!(first.offset, 0);
    assert_eq!(first.line, 1);
    assert!(!first.same_line);
    assert_eq!(first.opcode, OpCode::Constant);
    match first.constant {
        Some((7, Value::Double(7))) => (),
        other => panic!("unexpected constant: {:?}", other),
    }
    assert_eq!(next, 2);
    let (second, next) = chunk.disassemble(2);
    assert_eq!(second.opcode, OpCode::ConstantLong);
    assert!(second.same_line);
    match second.constant {
        Some((299, Value::Double(299))) => (),
        other => panic!("unexpected constant: {:?}", other),
    }
    assert_eq!(next, 6);
    let (third, next) = chunk.disassemble(6);
    assert_eq!(third.opcode, OpCode::Add);
    assert_eq!(third.line, 2);
    assert!(!third.same_line);
    assert!(third.constant.is_none());
    assert_eq!(next, 7);
    let (fourth, next) = chunk.disassemble(7);
    assert_eq!(fourth.opcode, OpCode::Return);
    assert!(fourth.same_line);
    assert_eq!(next, 8);
}

fn assemble(chunk: &Chunk) -> Vec<u8> {
    let mut code = Vec::new();
    for instruction in chunk.disassemble_all() {
        code.push(instruction.opcode.to_byte());
        match (instruction.opcode, instruction.constant) {
            (OpCode::Constant, Some((index, _))) => code.push(index as u8),
            (OpCode::ConstantLong, Some((index, _))) => {
                code.extend_from_slice(&index.to_le_bytes()[0..3])
            }
            _ => (),
        }
    }
    code
}

#[test]
fn the_code_can_be_rebuilt_from_the_disassembly() {
    let chunk = sample();
    let listing = chunk.disassemble_all();
    assert_eq!(listing.len(), 4);
    assert_eq!(&assemble(&chunk), chunk.code());
}
