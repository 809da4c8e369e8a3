//! Decoding of bytecode for tracing: one entry per instruction, for the
//! embedding program to print.
use vstd::prelude::*;

use crate::chunk::{decode, Chunk, OpCode};

verus! {

/// The name an opcode is listed under.
pub open spec fn op_name(op: OpCode) -> &'static str {
    match op {
        OpCode::Constant => "OP_CONSTANT",
        OpCode::Nil => "OP_NIL",
        OpCode::True => "OP_TRUE",
        OpCode::False => "OP_FALSE",
        OpCode::Equal => "OP_EQUAL",
        OpCode::Greater => "OP_GREATER",
        OpCode::Less => "OP_LESS",
        OpCode::Add => "OP_ADD",
        OpCode::Subtract => "OP_SUBTRACT",
        OpCode::Multiply => "OP_MULTIPLY",
        OpCode::Divide => "OP_DIVIDE",
        OpCode::Not => "OP_NOT",
        OpCode::Negate => "OP_NEGATE",
        OpCode::Return => "OP_RETURN",
    }
}

/// The name an opcode is listed under.
pub fn opcode_name(op: OpCode) -> (r: &'static str)
    ensures
        r == op_name(op),
{
    match op {
        OpCode::Constant => "OP_CONSTANT",
        OpCode::Nil => "OP_NIL",
        OpCode::True => "OP_TRUE",
        OpCode::False => "OP_FALSE",
        OpCode::Equal => "OP_EQUAL",
        OpCode::Greater => "OP_GREATER",
        OpCode::Less => "OP_LESS",
        OpCode::Add => "OP_ADD",
        OpCode::Subtract => "OP_SUBTRACT",
        OpCode::Multiply => "OP_MULTIPLY",
        OpCode::Divide => "OP_DIVIDE",
        OpCode::Not => "OP_NOT",
        OpCode::Negate => "OP_NEGATE",
        OpCode::Return => "OP_RETURN",
    }
}

/// One decoded instruction.
#[derive(Debug, Clone, Copy, PartialEq, Eq)]
pub struct Instruction {
    /// Offset of the opcode byte.
    pub offset: usize,
    /// The source line, or `None` when it is the line of the byte before.
    pub line: Option<u32>,
    /// The opcode, or `Err` with the byte when it encodes none.
    pub op: Result<OpCode, u8>,
    /// The constant-pool index a `Constant` loads.
    pub operand: Option<u8>,
}

/// The instruction at `offset` of code with the given source lines.
pub open spec fn instruction_at(code: Seq<u8>, lines: Seq<u32>, offset: usize) -> Instruction {
    let constant = decode(code[offset as int]) == Some(OpCode::Constant) && offset + 1
        < code.len();
    Instruction {
        offset,
        line: if offset > 0 && lines[offset - 1] == lines[offset as int] {
            None
        } else {
            Some(lines[offset as int])
        },
        op: match decode(code[offset as int]) {
            Some(op) => Ok(op),
            None => Err(code[offset as int]),
        },
        operand: if constant {
            Some(code[offset + 1])
        } else {
            None
        },
    }
}

/// Offset of the instruction after the one at `offset`.
pub open spec fn next_offset(code: Seq<u8>, offset: int) -> int {
    if decode(code[offset]) == Some(OpCode::Constant) && offset + 1 < code.len() {
        offset + 2
    } else {
        offset + 1
    }
}

/// Decodes the instruction at `offset` and returns it with the offset of the
/// next one.
pub fn disassemble_instruction(chunk: &Chunk, offset: usize) -> (r: (Instruction, usize))
    requires
        chunk.wf(),
        offset < chunk@.code.len(),
    ensures
        r.0 == instruction_at(chunk@.code, chunk@.lines, offset),
        r.1 == next_offset(chunk@.code, offset as int),
{
    let code = chunk.code();
    let len = code.len();
    let line = chunk.line(offset);
    let line = if offset > 0 && chunk.line(offset - 1) == line {
        None
    } else {
        Some(line)
    };
    let byte = code[offset];
    match OpCode::from_byte(byte) {
        Some(OpCode::Constant) => {
            if offset + 1 < len {
                let instruction = Instruction {
                    offset,
                    line,
                    op: Ok(OpCode::Constant),
                    operand: Some(code[offset + 1]),
                };
                (instruction, offset + 2)
            } else {
                (Instruction { offset, line, op: Ok(OpCode::Constant), operand: None }, offset + 1)
            }
        },
        Some(op) => (Instruction { offset, line, op: Ok(op), operand: None }, offset + 1),
        None => (Instruction { offset, line, op: Err(byte), operand: None }, offset + 1),
    }
}

/// Decodes every instruction of the chunk, in order: the first starts at 0,
/// each next one where the one before ends, and the last ends with the code.
pub fn disassemble_chunk(chunk: &Chunk) -> (r: Vec<Instruction>)
    requires
        chunk.wf(),
    ensures
        chunk@.code.len() > 0 <==> r@.len() > 0,
        r@.len() > 0 ==> r@[0].offset == 0,
        r@.len() > 0 ==> next_offset(chunk@.code, r@.last().offset as int) == chunk@.code.len(),
        forall|i: int|
            0 <= i < r@.len() ==> #[trigger] r@[i].offset < chunk@.code.len() && r@[i]
                == instruction_at(chunk@.code, chunk@.lines, r@[i].offset),
        forall|i: int|
            0 <= i < r@.len() - 1 ==> r@[i + 1].offset == next_offset(
                chunk@.code,
                #[trigger] r@[i].offset as int,
            ),
{
    let mut entries: Vec<Instruction> = Vec::new();
    let mut offset: usize = 0;
    let len = chunk.code().len();
    while offset < len
        invariant
            chunk.wf(),
            len == chunk@.code.len(),
            offset <= len,
            entries@.len() <= offset,
            entries@.len() > 0 ==> entries@[0].offset == 0,
            entries@.len() == 0 ==> offset == 0,
            entries@.len() > 0 ==> offset == next_offset(
                chunk@.code,
                entries@.last().offset as int,
            ),
            forall|i: int|
                0 <= i < entries@.len() ==> #[trigger] entries@[i].offset < len && entries@[i]
                    == instruction_at(chunk@.code, chunk@.lines, entries@[i].offset),
            forall|i: int|
                0 <= i < entries@.len() - 1 ==> entries@[i + 1].offset == next_offset(
                    chunk@.code,
                    #[trigger] entries@[i].offset as int,
                ),
        decreases len - offset,
    {
        let (instruction, next) = disassemble_instruction(chunk, offset);
        entries.push(instruction);
        offset = next;
    }
    entries
}

} // verus!
