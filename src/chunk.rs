use vstd::prelude::*;

verus! {

/// A runtime value: the bit pattern of a 32-bit IEEE-754 float. The library
/// only stores and moves values; arithmetic on them happens outside it.
pub type Value = u32;

/// The instructions of the virtual machine.
#[derive(Clone, Copy, Debug, PartialEq, Eq, Structural)]
pub enum Opcode {
    Constant,
    Add,
    Subtract,
    Multiply,
    Divide,
    Negate,
    Return,
}

/// The byte that encodes an instruction.
pub open spec fn opcode_byte(op: Opcode) -> u8 {
    match op {
        Opcode::Constant => 1,
        Opcode::Add => 2,
        Opcode::Subtract => 3,
        Opcode::Multiply => 4,
        Opcode::Divide => 5,
        Opcode::Negate => 6,
        Opcode::Return => 7,
    }
}

/// The instruction that a byte encodes, if any.
pub open spec fn decode_byte(b: u8) -> Option<Opcode> {
    if b == 1 {
        Some(Opcode::Constant)
    } else if b == 2 {
        Some(Opcode::Add)
    } else if b == 3 {
        Some(Opcode::Subtract)
    } else if b == 4 {
        Some(Opcode::Multiply)
    } else if b == 5 {
        Some(Opcode::Divide)
    } else if b == 6 {
        Some(Opcode::Negate)
    } else if b == 7 {
        Some(Opcode::Return)
    } else {
        None
    }
}

/// Decoding inverts encoding, and only the bytes 1 to 7 decode.
pub proof fn lemma_decode_encode(op: Opcode, b: u8)
    ensures
        decode_byte(opcode_byte(op)) == Some(op),
        decode_byte(b) is Some <==> 1 <= b <= 7,
        decode_byte(b) is Some ==> opcode_byte(decode_byte(b)->0) == b,
{
}

impl Opcode {
    /// The byte that encodes this instruction.
    pub fn as_byte(self) -> (r: u8)
        ensures
            r == opcode_byte(self),
    {
        match self {
            Opcode::Constant => 1,
            Opcode::Add => 2,
            Opcode::Subtract => 3,
            Opcode::Multiply => 4,
            Opcode::Divide => 5,
            Opcode::Negate => 6,
            Opcode::Return => 7,
        }
    }

    /// The instruction that a byte encodes; `None` for any byte outside 1..=7.
    pub fn from_byte(b: u8) -> (r: Option<Opcode>)
        ensures
            r == decode_byte(b),
    {
        match b {
            1 => Some(Opcode::Constant),
            2 => Some(Opcode::Add),
            3 => Some(Opcode::Subtract),
            4 => Some(Opcode::Multiply),
            5 => Some(Opcode::Divide),
            6 => Some(Opcode::Negate),
            7 => Some(Opcode::Return),
            _ => None,
        }
    }

    /// The name that a listing shows for this instruction.
    pub fn mnemonic(self) -> (r: &'static str)
        ensures
            r@ == mnemonic_of(self),
    {
        match self {
            Opcode::Constant => "OP_CONSTANT",
            Opcode::Add => "OP_ADD",
            Opcode::Subtract => "OP_SUBTRACT",
            Opcode::Multiply => "OP_MULTIPLY",
            Opcode::Divide => "OP_DIVIDE",
            Opcode::Negate => "OP_NEGATE",
            Opcode::Return => "OP_RETURN",
        }
    }
}

/// The name that a listing shows for an instruction.
pub open spec fn mnemonic_of(op: Opcode) -> Seq<char> {
    match op {
        Opcode::Constant => "OP_CONSTANT"@,
        Opcode::Add => "OP_ADD"@,
        Opcode::Subtract => "OP_SUBTRACT"@,
        Opcode::Multiply => "OP_MULTIPLY"@,
        Opcode::Divide => "OP_DIVIDE"@,
        Opcode::Negate => "OP_NEGATE"@,
        Opcode::Return => "OP_RETURN"@,
    }
}


/// The width in bytes of the instruction that starts with byte `b`.
pub open spec fn width_of(b: u8) -> int {
    if b == 1 {
        2
    } else {
        1
    }
}

/// From offset `o` on, every `CONSTANT` instruction of `code` is followed by an
/// operand byte that indexes one of `n` constants.
pub open spec fn operands_valid(code: Seq<u8>, n: nat, o: int) -> bool
    decreases code.len() - o,
{
    if o < 0 || o >= code.len() {
        true
    } else if code[o] == 1 {
        o + 1 < code.len() && code[o + 1] < n && operands_valid(code, n, o + 2)
    } else {
        operands_valid(code, n, o + 1)
    }
}

/// Offset `o` starts an instruction, when `code` is decoded from offset `p` on.
pub open spec fn starts_instruction(code: Seq<u8>, p: int, o: int) -> bool
    decreases o + 2 - p,
{
    if p < 0 || p > o || p >= code.len() {
        false
    } else if p == o {
        true
    } else {
        starts_instruction(code, p + width_of(code[p]), o)
    }
}

/// What a chunk holds: its bytes, its constant pool and the line of each byte.
pub struct ChunkView {
    pub code: Seq<u8>,
    pub constants: Seq<Value>,
    pub lines: Seq<i32>,
}

/// A sequence of bytecode with its constant pool and the source line of each byte.
pub struct Chunk {
    code: Vec<u8>,
    constants: Vec<Value>,
    lines: Vec<i32>,
}

impl View for Chunk {
    type V = ChunkView;

    closed spec fn view(&self) -> ChunkView {
        ChunkView { code: self.code@, constants: self.constants@, lines: self.lines@ }
    }
}

impl Chunk {
    /// Every byte of the code has its line.
    pub open spec fn wf(self) -> bool {
        self@.lines.len() == self@.code.len()
    }

    /// Every `CONSTANT` instruction has an operand that indexes the pool.
    pub open spec fn is_complete(self) -> bool {
        operands_valid(self@.code, self@.constants.len(), 0)
    }

    /// Returns a newly initialised, empty chunk.
    pub fn new() -> (r: Chunk)
        ensures
            r@.code == Seq::<u8>::empty(),
            r@.constants == Seq::<Value>::empty(),
            r@.lines == Seq::<i32>::empty(),
            r.wf(),
    {
        Chunk { code: Vec::new(), constants: Vec::new(), lines: Vec::new() }
    }

    /// The bytes of the program.
    pub fn code(&self) -> (r: &Vec<u8>)
        ensures
            r@ == self@.code,
    {
        &self.code
    }

    /// The constant pool.
    pub fn constants(&self) -> (r: &Vec<Value>)
        ensures
            r@ == self@.constants,
    {
        &self.constants
    }

    /// The source line of each byte.
    pub fn lines(&self) -> (r: &Vec<i32>)
        ensures
            r@ == self@.lines,
    {
        &self.lines
    }

    /// Appends one byte and its line.
    pub fn write(&mut self, byte: u8, line: i32)
        requires
            old(self).wf(),
        ensures
            final(self)@.code == old(self)@.code.push(byte),
            final(self)@.lines == old(self)@.lines.push(line),
            final(self)@.constants == old(self)@.constants,
            final(self).wf(),
    {
        self.code.push(byte);
        self.lines.push(line);
    }

    /// Appends the byte of an instruction and its line.
    pub fn write_instruction(&mut self, instruction: Opcode, line: i32)
        requires
            old(self).wf(),
        ensures
            final(self)@.code == old(self)@.code.push(opcode_byte(instruction)),
            final(self)@.lines == old(self)@.lines.push(line),
            final(self)@.constants == old(self)@.constants,
            final(self).wf(),
    {
        self.write(instruction.as_byte(), line);
    }

    /// Appends a constant to the pool and returns its index.
    pub fn add_constant(&mut self, value: Value) -> (r: u8)
        requires
            old(self)@.constants.len() < 256,
        ensures
            final(self)@.constants == old(self)@.constants.push(value),
            r == old(self)@.constants.len(),
            final(self)@.code == old(self)@.code,
            final(self)@.lines == old(self)@.lines,
            final(self).wf() == old(self).wf(),
    {
        self.constants.push(value);
        (self.constants.len() - 1) as u8
    }
    /// The listing line of a one-byte instruction at `offset`, with its source line.
    pub fn simple_instruction(&self, line: Option<i32>, offset: usize) -> (r: InstructionLine)
        requires
            self.wf(),
            self@.code.len() <= isize::MAX,
            offset < self@.code.len(),
            decode_byte(self@.code[offset as int]) != Some(Opcode::Constant),
            line == describe(self@, offset as int).line,
        ensures
            r == describe(self@, offset as int),
    {
        let byte = self.code[offset];
        InstructionLine {
            offset,
            line,
            byte,
            op: Opcode::from_byte(byte),
            operand: None,
            value: None,
            next: offset + 1,
        }
    }

    /// The listing line of the `CONSTANT` at `offset`, with its source line:
    /// its operand and the constant that it names.
    pub fn constant_instruction(&self, line: Option<i32>, offset: usize) -> (r: InstructionLine)
        requires
            self.wf(),
            self@.code.len() <= isize::MAX,
            offset < self@.code.len(),
            decode_byte(self@.code[offset as int]) == Some(Opcode::Constant),
            line == describe(self@, offset as int).line,
        ensures
            r == describe(self@, offset as int),
    {
        let operand = if offset < self.code.len() - 1 {
            Some(self.code[offset + 1])
        } else {
            None
        };
        let value = match operand {
            Some(i) => if (i as usize) < self.constants.len() {
                Some(self.constants[i as usize])
            } else {
                None
            },
            None => None,
        };
        InstructionLine {
            offset,
            line,
            byte: self.code[offset],
            op: Some(Opcode::Constant),
            operand,
            value,
            next: offset + 2,
        }
    }

    /// The listing line of the instruction at `offset`.
    pub fn disassemble_instruction(&self, offset: usize) -> (r: InstructionLine)
        requires
            self.wf(),
            self@.code.len() <= isize::MAX,
            offset < self@.code.len(),
        ensures
            r == describe(self@, offset as int),
    {
        let line = if offset > 0 && self.lines[offset] == self.lines[offset - 1] {
            None
        } else {
            Some(self.lines[offset])
        };
        match Opcode::from_byte(self.code[offset]) {
            Some(Opcode::Constant) => self.constant_instruction(line, offset),
            _ => self.simple_instruction(line, offset),
        }
    }

    /// The listing of the whole chunk: one line per instruction, in order.
    pub fn disassemble_chunk(&self) -> (r: Vec<InstructionLine>)
        requires
            self.wf(),
            self@.code.len() <= isize::MAX,
        ensures
            r@.len() == listing_offsets(self@.code, 0).len(),
            forall|i: int|
                0 <= i < r@.len() ==> #[trigger] r@[i] == describe(
                    self@,
                    listing_offsets(self@.code, 0)[i],
                ),
    {
        let mut out: Vec<InstructionLine> = Vec::new();
        let mut offset: usize = 0;
        while offset < self.code.len()
            invariant
                self.wf(),
                self@.code.len() <= isize::MAX,
                offset <= self@.code.len() + 1,
                listing_offsets(self@.code, 0) == out@.map_values(|l: InstructionLine| l.offset as int)
                    + listing_offsets(self@.code, offset as int),
                forall|i: int|
                    0 <= i < out@.len() ==> #[trigger] out@[i] == describe(self@, out@[i].offset as int),
            decreases self@.code.len() + 1 - offset,
        {
            let l = self.disassemble_instruction(offset);
            proof {
                let rest = listing_offsets(self@.code, l.next as int);
                assert(listing_offsets(self@.code, offset as int) == seq![offset as int] + rest);
                assert(out@.push(l).map_values(|l: InstructionLine| l.offset as int) =~= out@.map_values(
                    |l: InstructionLine| l.offset as int,
                ).push(offset as int));
                assert(out@.map_values(|l: InstructionLine| l.offset as int) + listing_offsets(
                    self@.code,
                    offset as int,
                ) =~= out@.push(l).map_values(|l: InstructionLine| l.offset as int) + rest);
            }
            out.push(l);
            offset = l.next;
        }
        proof {
            assert(listing_offsets(self@.code, offset as int) =~= Seq::<int>::empty());
            assert(listing_offsets(self@.code, 0) =~= out@.map_values(|l: InstructionLine| l.offset as int));
            assert forall|i: int| 0 <= i < out@.len() implies #[trigger] out@[i] == describe(
                self@,
                listing_offsets(self@.code, 0)[i],
            ) by {
                assert(listing_offsets(self@.code, 0)[i] == out@[i].offset as int);
            }
        }
        out
    }
}

/// One line of a chunk's listing.
#[derive(Clone, Copy, Debug, PartialEq, Eq)]
pub struct InstructionLine {
    /// Where the instruction starts.
    pub offset: usize,
    /// Its source line; `None` where that is the line of the byte before.
    pub line: Option<i32>,
    /// The byte at `offset`.
    pub byte: u8,
    /// The instruction that byte encodes; `None` for an unknown byte.
    pub op: Option<Opcode>,
    /// For `CONSTANT`, the operand byte, where the code has one.
    pub operand: Option<u8>,
    /// For `CONSTANT`, the constant that the operand names, where there is one.
    pub value: Option<Value>,
    /// Where the next instruction starts.
    pub next: usize,
}

/// The listing line of the instruction at `o`, an offset inside the code.
pub open spec fn describe(c: ChunkView, o: int) -> InstructionLine {
    let op = decode_byte(c.code[o]);
    let operand = if op == Some(Opcode::Constant) && o + 1 < c.code.len() {
        Some(c.code[o + 1])
    } else {
        None
    };
    InstructionLine {
        offset: o as usize,
        line: if o > 0 && c.lines[o] == c.lines[o - 1] {
            None
        } else {
            Some(c.lines[o])
        },
        byte: c.code[o],
        op,
        operand,
        value: match operand {
            Some(i) => if i < c.constants.len() {
                Some(c.constants[i as int])
            } else {
                None
            },
            None => None,
        },
        next: (if op == Some(Opcode::Constant) {
            o + 2
        } else {
            o + 1
        }) as usize,
    }
}

/// The offsets at which a listing from `o` on starts its lines.
pub open spec fn listing_offsets(code: Seq<u8>, o: int) -> Seq<int>
    decreases code.len() + 2 - o,
{
    if o < 0 || o >= code.len() {
        Seq::empty()
    } else {
        seq![o] + listing_offsets(code, o + width_of(code[o]))
    }

}

/// Once code is complete, every `CONSTANT` instruction in it is followed by
/// an operand byte, and that byte indexes the constant pool.
pub proof fn lemma_constant_operand(code: Seq<u8>, n: nat, o: int)
    requires
        operands_valid(code, n, 0),
        starts_instruction(code, 0, o),
        code[o] == opcode_byte(Opcode::Constant),
    ensures
        o + 1 < code.len(),
        code[o + 1] < n,
{
    lemma_operands_at(code, n, 0, o);
}

proof fn lemma_operands_at(code: Seq<u8>, n: nat, p: int, o: int)
    requires
        operands_valid(code, n, p),
        starts_instruction(code, p, o),
    ensures
        operands_valid(code, n, o),
        0 <= o < code.len(),
    decreases code.len() - p,
{
    if p < o {
        lemma_operands_at(code, n, p + width_of(code[p]), o);
    }
}

/// Operand validity is read relative to where decoding starts.
proof fn lemma_operands_shift(a: Seq<u8>, b: Seq<u8>, n: nat, o: int)
    requires
        0 <= o <= b.len(),
    ensures
        operands_valid(a + b, n, a.len() + o) == operands_valid(b, n, o),
    decreases b.len() - o,
{
    if o < b.len() {
        assert((a + b)[a.len() + o] == b[o]);
        if o + 1 < b.len() {
            assert((a + b)[a.len() + o + 1] == b[o + 1]);
        }
        if b[o] == 1 {
            if o + 2 <= b.len() {
                lemma_operands_shift(a, b, n, o + 2);
            }
        } else {
            lemma_operands_shift(a, b, n, o + 1);
        }
    }
}

proof fn lemma_operands_concat_from(a: Seq<u8>, b: Seq<u8>, n: nat, o: int)
    requires
        0 <= o <= a.len(),
        operands_valid(a, n, o),
        operands_valid(b, n, 0),
    ensures
        operands_valid(a + b, n, o),
    decreases a.len() - o,
{
    if o == a.len() {
        lemma_operands_shift(a, b, n, 0);
    } else {
        assert((a + b)[o] == a[o]);
        if a[o] == 1 {
            assert((a + b)[o + 1] == a[o + 1]);
            lemma_operands_concat_from(a, b, n, o + 2);
        } else {
            lemma_operands_concat_from(a, b, n, o + 1);
        }
    }
}

/// Complete code followed by complete code is complete.
pub proof fn lemma_operands_concat(a: Seq<u8>, b: Seq<u8>, n: nat)
    requires
        operands_valid(a, n, 0),
        operands_valid(b, n, 0),
    ensures
        operands_valid(a + b, n, 0),
{
    lemma_operands_concat_from(a, b, n, 0);
}

/// Code that is complete stays so as the constant pool grows.
pub proof fn lemma_operands_grow(a: Seq<u8>, n: nat, m: nat, o: int)
    requires
        operands_valid(a, n, o),
        n <= m,
    ensures
        operands_valid(a, m, o),
    decreases a.len() - o,
{
    if 0 <= o < a.len() {
        if a[o] == 1 {
            lemma_operands_grow(a, n, m, o + 2);
        } else {
            lemma_operands_grow(a, n, m, o + 1);
        }
    }
}

} // verus!
