//! A listing of a chunk, one row for each instruction.

use vstd::prelude::*;
use crate::chunk::{Chunk, ChunkView, OpCode};
use crate::value::Value;

verus! {

/// One row of a listing.
#[derive(Clone, Copy, Debug)]
pub struct Disassembly {
    /// The index of the instruction.
    pub offset: usize,
    /// The source line of the instruction, or `None` where it is the line of
    /// the instruction before, which a listing marks instead of repeating
    /// the number.
    pub line: Option<usize>,
    pub op: OpCode,
    /// The constant that the instruction pushes, where it is `Constant`.
    pub constant: Option<Value>,
}

/// The row of the instruction at `offset`.
pub open spec fn listing(chunk: ChunkView, offset: int) -> Disassembly {
    Disassembly {
        offset: offset as usize,
        line: if offset > 0 && chunk.lines[offset] == chunk.lines[offset - 1] {
            None
        } else {
            Some(chunk.lines[offset])
        },
        op: chunk.code[offset],
        constant: match chunk.code[offset] {
            OpCode::Constant(id) => Some(chunk.constants[id as int]),
            _ => None,
        },
    }
}

/// Lists every instruction of a chunk, in order.
pub fn disassemble_chunk(chunk: &Chunk) -> (rows: Vec<Disassembly>)
    requires
        chunk@.wf(),
        chunk@.operands_valid(),
    ensures
        rows@.len() == chunk@.code.len(),
        forall|i: int| 0 <= i < rows@.len() ==> rows@[i] == listing(chunk@, i),
{
    let mut rows: Vec<Disassembly> = Vec::new();
    let count = chunk.code().len();
    let mut offset: usize = 0;
    while offset < count
        invariant
            count == chunk@.code.len(),
            chunk@.wf(),
            chunk@.operands_valid(),
            offset <= count,
            rows@.len() == offset,
            forall|i: int| 0 <= i < offset ==> rows@[i] == listing(chunk@, i),
        decreases count - offset,
    {
        rows.push(disassemble_instruction(chunk, offset));
        offset += 1;
    }
    rows
}

/// Lists the instruction at `offset`.
pub fn disassemble_instruction(chunk: &Chunk, offset: usize) -> (row: Disassembly)
    requires
        chunk@.wf(),
        offset < chunk@.code.len(),
        chunk@.code[offset as int] matches OpCode::Constant(id) ==> (id as int)
            < chunk@.constants.len(),
    ensures
        row == listing(chunk@, offset as int),
{
    let instruction = chunk.code()[offset];
    let current_line = chunk.lines()[offset];
    let line = if offset > 0 && current_line == chunk.lines()[offset - 1] {
        None
    } else {
        Some(current_line)
    };
    let constant = match instruction {
        OpCode::Constant(id) => Some(chunk.constants()[id as usize]),
        _ => None,
    };
    Disassembly { offset, line, op: instruction, constant }
}

} // verus!
