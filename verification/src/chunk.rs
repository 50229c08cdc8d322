//! A chunk of bytecode: the instruction stream, the source line of each
//! instruction, and the pool of constants that the instructions refer to.

use vstd::prelude::*;
use crate::value::Value;

verus! {

/// An instruction of the virtual machine.
#[derive(Clone, Copy, Debug, PartialEq, Eq, Structural)]
pub enum OpCode {
    /// Pushes the constant with this index.
    Constant(u8),
    Nil,
    True,
    False,
    Negate,
    Not,
    Add,
    Sub,
    Mul,
    Div,
    Equal,
    Greater,
    Less,
    /// Pops the result and halts.
    Return,
}

/// The largest number of constants that a one-byte operand can tell apart.
pub const MAX_CONSTANTS: usize = 256;

/// What a chunk holds, as three sequences.
pub struct ChunkView {
    pub code: Seq<OpCode>,
    pub lines: Seq<usize>,
    pub constants: Seq<Value>,
}

impl ChunkView {
    /// The chunk that holds nothing.
    pub open spec fn empty() -> ChunkView {
        ChunkView { code: seq![], lines: seq![], constants: seq![] }
    }

    /// Every instruction has its line, and every constant an index that fits
    /// in one byte.
    pub open spec fn wf(self) -> bool {
        &&& self.lines.len() == self.code.len()
        &&& self.constants.len() <= MAX_CONSTANTS
    }

    /// Every `Constant` instruction refers to a constant that is there.
    pub open spec fn operands_valid(self) -> bool {
        forall|i: int|
            0 <= i < self.code.len() ==> (#[trigger] self.code[i] matches OpCode::Constant(id)
                ==> (id as int) < self.constants.len())
    }

    /// The chunk with one more instruction.
    pub open spec fn write(self, op: OpCode, line: usize) -> ChunkView {
        ChunkView { code: self.code.push(op), lines: self.lines.push(line), constants: self.constants }
    }

    /// The chunk with one more constant.
    pub open spec fn add_constant(self, value: Value) -> ChunkView {
        ChunkView { code: self.code, lines: self.lines, constants: self.constants.push(value) }
    }
}

pub struct Chunk {
    code: Vec<OpCode>,
    lines: Vec<usize>,
    constants: Vec<Value>,
}

impl View for Chunk {
    type V = ChunkView;

    closed spec fn view(&self) -> ChunkView {
        ChunkView { code: self.code@, lines: self.lines@, constants: self.constants@ }
    }
}

impl Chunk {
    /// An empty chunk.
    pub fn new() -> (chunk: Chunk)
        ensures
            chunk@ == ChunkView::empty(),
    {
        let chunk = Chunk { code: Vec::new(), lines: Vec::new(), constants: Vec::new() };
        assert(chunk@.code =~= Seq::<OpCode>::empty());
        assert(chunk@.lines =~= Seq::<usize>::empty());
        assert(chunk@.constants =~= Seq::<Value>::empty());
        chunk
    }

    pub fn code(&self) -> (code: &Vec<OpCode>)
        ensures
            code@ == self@.code,
    {
        &self.code
    }

    pub fn constants(&self) -> (constants: &Vec<Value>)
        ensures
            constants@ == self@.constants,
    {
        &self.constants
    }

    pub fn lines(&self) -> (lines: &Vec<usize>)
        ensures
            lines@ == self@.lines,
    {
        &self.lines
    }

    /// Appends an instruction and the source line it came from.
    pub fn write(&mut self, op: OpCode, line: usize)
        ensures
            final(self)@ == old(self)@.write(op, line),
    {
        self.code.push(op);
        self.lines.push(line);
    }

    /// Appends a constant and returns its index.
    pub fn add_constant(&mut self, value: Value) -> (id: u8)
        requires
            old(self)@.constants.len() < MAX_CONSTANTS,
        ensures
            final(self)@ == old(self)@.add_constant(value),
            id as int == old(self)@.constants.len(),
    {
        let id: usize = self.constants.len();
        self.constants.push(value);
        id as u8
    }
}


/// The height of the stack after one instruction that finds `height` values,
/// or `None` where the instruction needs more values than that, names a
/// constant beyond the first `constants`, or is `Return`.
pub open spec fn height_after(op: OpCode, height: int, constants: int) -> Option<int> {
    match op {
        OpCode::Constant(id) => if (id as int) < constants {
            Some(height + 1)
        } else {
            None
        },
        OpCode::Nil | OpCode::True | OpCode::False => Some(height + 1),
        OpCode::Negate | OpCode::Not => if height >= 1 {
            Some(height)
        } else {
            None
        },
        OpCode::Return => None,
        _ => if height >= 2 {
            Some(height - 1)
        } else {
            None
        },
    }
}

/// The height of the stack after the first `n` instructions of `code`,
/// started on an empty stack with a pool of `constants` constants, or `None`
/// where one of them cannot run (see [`height_after`]).
pub open spec fn height(code: Seq<OpCode>, n: int, constants: int) -> Option<int>
    decreases n,
{
    if n <= 0 {
        Some(0)
    } else {
        match height(code, n - 1, constants) {
            Some(before) => height_after(code[n - 1], before, constants),
            None => None,
        }
    }
}

impl ChunkView {
    /// The code of one expression: instructions that leave exactly one value
    /// on an empty stack, and a final `Return`.
    pub open spec fn is_expression(self) -> bool {
        &&& self.code.len() >= 1
        &&& self.code.last() == OpCode::Return
        &&& height(self.code, self.code.len() - 1, self.constants.len() as int) == Some(1int)
    }
}

/// Every instruction among the first `n` whose height is defined names a
/// constant that is there.
pub proof fn lemma_height_operands(code: Seq<OpCode>, n: int, constants: int)
    requires
        0 <= n <= code.len(),
        height(code, n, constants) is Some,
    ensures
        forall|i: int|
            0 <= i < n ==> (#[trigger] code[i] matches OpCode::Constant(id) ==> (id as int)
                < constants),
        forall|i: int| 0 <= i <= n ==> (#[trigger] height(code, i, constants)) is Some,
        forall|i: int| 0 <= i <= n ==> (#[trigger] height(code, i, constants))->0 >= 0,
    decreases n,
{
    if n > 0 {
        lemma_height_operands(code, n - 1, constants);
    }
}

} // verus!
