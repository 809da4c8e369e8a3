use vstd::prelude::*;

use crate::memory::grow_capacity;
use crate::value::{Val, Value, ValueArray};

verus! {

/// The instruction set. Each opcode is one byte; only `Constant` has an
/// operand, a one-byte index into the constant pool.
#[derive(Debug, Clone, Copy, PartialEq, Eq, Structural)]
pub enum OpCode {
    Constant,
    Nil,
    True,
    False,
    Equal,
    Greater,
    Less,
    Add,
    Subtract,
    Multiply,
    Divide,
    Not,
    Negate,
    Return,
}

/// The byte that encodes `op`.
pub open spec fn op_byte(op: OpCode) -> u8 {
    match op {
        OpCode::Constant => 0,
        OpCode::Nil => 1,
        OpCode::True => 2,
        OpCode::False => 3,
        OpCode::Equal => 4,
        OpCode::Greater => 5,
        OpCode::Less => 6,
        OpCode::Add => 7,
        OpCode::Subtract => 8,
        OpCode::Multiply => 9,
        OpCode::Divide => 10,
        OpCode::Not => 11,
        OpCode::Negate => 12,
        OpCode::Return => 13,
    }
}

/// The opcode that `b` encodes, if any.
pub open spec fn decode(b: u8) -> Option<OpCode> {
    if b == 0 {
        Some(OpCode::Constant)
    } else if b == 1 {
        Some(OpCode::Nil)
    } else if b == 2 {
        Some(OpCode::True)
    } else if b == 3 {
        Some(OpCode::False)
    } else if b == 4 {
        Some(OpCode::Equal)
    } else if b == 5 {
        Some(OpCode::Greater)
    } else if b == 6 {
        Some(OpCode::Less)
    } else if b == 7 {
        Some(OpCode::Add)
    } else if b == 8 {
        Some(OpCode::Subtract)
    } else if b == 9 {
        Some(OpCode::Multiply)
    } else if b == 10 {
        Some(OpCode::Divide)
    } else if b == 11 {
        Some(OpCode::Not)
    } else if b == 12 {
        Some(OpCode::Negate)
    } else if b == 13 {
        Some(OpCode::Return)
    } else {
        None
    }
}

/// Opcodes that pop two operands and push one result.
pub open spec fn is_binary(op: OpCode) -> bool {
    op == OpCode::Equal || op == OpCode::Greater || op == OpCode::Less || op == OpCode::Add
        || op == OpCode::Subtract || op == OpCode::Multiply || op == OpCode::Divide
}

/// Opcodes that push a literal.
pub open spec fn is_literal(op: OpCode) -> bool {
    op == OpCode::Nil || op == OpCode::True || op == OpCode::False
}

/// Opcodes that replace the top of the stack.
pub open spec fn is_unary(op: OpCode) -> bool {
    op == OpCode::Not || op == OpCode::Negate
}

/// Whether `code` decodes into whole instructions, each `Constant` followed by
/// an index below `n_constants`.
pub open spec fn well_formed(code: Seq<u8>, n_constants: int) -> bool
    decreases code.len(),
{
    if code.len() == 0 {
        true
    } else {
        match decode(code[0]) {
            Some(OpCode::Constant) => code.len() >= 2 && code[1] < n_constants && well_formed(
                code.skip(2),
                n_constants,
            ),
            Some(_) => well_formed(code.skip(1), n_constants),
            None => false,
        }
    }
}

/// Stack depth after running the straight-line `code` from depth `depth`, or
/// `None` when it is not well formed, holds a `Return`, or would pop an empty
/// stack.
pub open spec fn stack_effect(code: Seq<u8>, n_constants: int, depth: int) -> Option<int>
    decreases code.len(),
{
    if code.len() == 0 {
        Some(depth)
    } else {
        match decode(code[0]) {
            Some(OpCode::Constant) => if code.len() >= 2 && code[1] < n_constants {
                stack_effect(code.skip(2), n_constants, depth + 1)
            } else {
                None
            },
            Some(op) => if is_literal(op) {
                stack_effect(code.skip(1), n_constants, depth + 1)
            } else if is_binary(op) && depth >= 2 {
                stack_effect(code.skip(1), n_constants, depth - 1)
            } else if is_unary(op) && depth >= 1 {
                stack_effect(code.skip(1), n_constants, depth)
            } else {
                None
            },
            None => None,
        }
    }
}

/// Whether the machine can run `code` from offset `ip` with `depth` values on
/// its stack: straight-line code that never pops an empty stack, ending in a
/// `Return` that finds exactly one value.
pub open spec fn runnable(code: Seq<u8>, n_constants: int, ip: int, depth: int) -> bool {
    &&& 0 <= ip < code.len()
    &&& code.last() == op_byte(OpCode::Return)
    &&& stack_effect(code.subrange(ip, code.len() - 1), n_constants, depth) == Some(1int)
}

/// The opcodes of well-formed code, operands left out.
pub open spec fn opcodes(code: Seq<u8>) -> Seq<OpCode>
    decreases code.len(),
{
    if code.len() == 0 {
        Seq::empty()
    } else {
        match decode(code[0]) {
            Some(OpCode::Constant) => if code.len() >= 2 {
                seq![OpCode::Constant] + opcodes(code.skip(2))
            } else {
                seq![OpCode::Constant]
            },
            Some(op) => seq![op] + opcodes(code.skip(1)),
            None => Seq::empty(),
        }
    }
}

/// Putting a number where a number was keeps the number indices.
pub proof fn lemma_number_indices_update(c: Seq<Val>, i: int, v: Val)
    requires
        0 <= i < c.len(),
        c[i] is Number,
        v is Number,
    ensures
        number_indices(c.update(i, v)) == number_indices(c),
    decreases c.len(),
{
    let u = c.update(i, v);
    if i < c.len() - 1 {
        assert(u.drop_last() =~= c.drop_last().update(i, v));
        lemma_number_indices_update(c.drop_last(), i, v);
    } else {
        assert(u.drop_last() =~= c.drop_last());
    }
}

/// A sequence is its own prefix of full length.
pub broadcast proof fn lemma_whole_subrange<T>(s: Seq<T>)
    ensures
        #[trigger] s.subrange(0, s.len() as int) == s,
{
    assert(s.subrange(0, s.len() as int) =~= s);
}

/// The operands of the `Constant` instructions of well-formed code, in order.
pub open spec fn constant_operands(code: Seq<u8>) -> Seq<u8>
    decreases code.len(),
{
    if code.len() == 0 {
        Seq::empty()
    } else {
        match decode(code[0]) {
            Some(OpCode::Constant) => if code.len() >= 2 {
                seq![code[1]] + constant_operands(code.skip(2))
            } else {
                Seq::empty()
            },
            Some(_) => constant_operands(code.skip(1)),
            None => Seq::empty(),
        }
    }
}

pub proof fn lemma_constant_operands_append(a: Seq<u8>, b: Seq<u8>, n: int)
    requires
        well_formed(a, n),
    ensures
        constant_operands(a + b) == constant_operands(a) + constant_operands(b),
    decreases a.len(),
{
    if a.len() > 0 {
        assert((a + b)[0] == a[0]);
        if decode(a[0]) == Some(OpCode::Constant) {
            assert((a + b)[1] == a[1]);
            assert((a + b).skip(2) =~= a.skip(2) + b);
            lemma_constant_operands_append(a.skip(2), b, n);
            assert(constant_operands(a + b) =~= constant_operands(a) + constant_operands(b));
        } else {
            assert((a + b).skip(1) =~= a.skip(1) + b);
            lemma_constant_operands_append(a.skip(1), b, n);
        }
    } else {
        assert(a + b =~= b);
        assert(constant_operands(a) + constant_operands(b) =~= constant_operands(b));
    }
}

pub proof fn lemma_opcodes_append(a: Seq<u8>, b: Seq<u8>, n: int)
    requires
        well_formed(a, n),
    ensures
        opcodes(a + b) == opcodes(a) + opcodes(b),
    decreases a.len(),
{
    if a.len() > 0 {
        assert((a + b)[0] == a[0]);
        if decode(a[0]) == Some(OpCode::Constant) {
            assert((a + b)[1] == a[1]);
            assert((a + b).skip(2) =~= a.skip(2) + b);
            lemma_opcodes_append(a.skip(2), b, n);
            assert(opcodes(a + b) =~= opcodes(a) + opcodes(b));
        } else {
            assert((a + b).skip(1) =~= a.skip(1) + b);
            lemma_opcodes_append(a.skip(1), b, n);
            assert(opcodes(a + b) =~= opcodes(a) + opcodes(b));
        }
    } else {
        assert(a + b =~= b);
        assert(opcodes(a) + opcodes(b) =~= opcodes(b));
    }
}

pub proof fn lemma_well_formed_append(a: Seq<u8>, b: Seq<u8>, n: int)
    requires
        well_formed(a, n),
        well_formed(b, n),
    ensures
        well_formed(a + b, n),
    decreases a.len(),
{
    if a.len() > 0 {
        let k: int = if decode(a[0]) == Some(OpCode::Constant) {
            2
        } else {
            1
        };
        assert((a + b)[0] == a[0]);
        if k == 2 {
            assert((a + b)[1] == a[1]);
        }
        assert((a + b).skip(k) =~= a.skip(k) + b);
        lemma_well_formed_append(a.skip(k), b, n);
    } else {
        assert(a + b =~= b);
    }
}

pub proof fn lemma_well_formed_grow(a: Seq<u8>, n: int, m: int)
    requires
        well_formed(a, n),
        n <= m,
    ensures
        well_formed(a, m),
    decreases a.len(),
{
    if a.len() > 0 {
        if decode(a[0]) == Some(OpCode::Constant) {
            lemma_well_formed_grow(a.skip(2), n, m);
        } else {
            lemma_well_formed_grow(a.skip(1), n, m);
        }
    }
}

/// Running `a + b` runs `a`, then `b` from where `a` left the stack.
pub proof fn lemma_effect_append(a: Seq<u8>, b: Seq<u8>, n: int, depth: int)
    requires
        stack_effect(a, n, depth) is Some,
    ensures
        stack_effect(a + b, n, depth) == stack_effect(b, n, stack_effect(a, n, depth)->0),
    decreases a.len(),
{
    if a.len() > 0 {
        assert((a + b)[0] == a[0]);
        let op = decode(a[0]);
        if op == Some(OpCode::Constant) {
            assert((a + b)[1] == a[1]);
            assert((a + b).skip(2) =~= a.skip(2) + b);
            lemma_effect_append(a.skip(2), b, n, depth + 1);
        } else {
            assert((a + b).skip(1) =~= a.skip(1) + b);
            let next = if is_literal(op->0) {
                depth + 1
            } else if is_binary(op->0) {
                depth - 1
            } else {
                depth
            };
            lemma_effect_append(a.skip(1), b, n, next);
        }
    } else {
        assert(a + b =~= b);
    }
}

/// Straight-line code that runs from one depth runs the same from any deeper
/// one, ending that much deeper.
pub proof fn lemma_effect_shift(a: Seq<u8>, n: int, depth: int, extra: int)
    requires
        stack_effect(a, n, depth) is Some,
        extra >= 0,
    ensures
        stack_effect(a, n, depth + extra) == Some(stack_effect(a, n, depth)->0 + extra),
    decreases a.len(),
{
    if a.len() > 0 {
        let op = decode(a[0]);
        if op == Some(OpCode::Constant) {
            lemma_effect_shift(a.skip(2), n, depth + 1, extra);
        } else {
            let next = if is_literal(op->0) {
                depth + 1
            } else if is_binary(op->0) {
                depth - 1
            } else {
                depth
            };
            lemma_effect_shift(a.skip(1), n, next, extra);
        }
    }
}

/// A larger constant pool keeps every operand in range.
pub proof fn lemma_effect_grow(a: Seq<u8>, n: int, m: int, depth: int)
    requires
        stack_effect(a, n, depth) is Some,
        n <= m,
    ensures
        stack_effect(a, m, depth) == stack_effect(a, n, depth),
    decreases a.len(),
{
    if a.len() > 0 {
        let op = decode(a[0]);
        if op == Some(OpCode::Constant) {
            lemma_effect_grow(a.skip(2), n, m, depth + 1);
        } else {
            let next = if is_literal(op->0) {
                depth + 1
            } else if is_binary(op->0) {
                depth - 1
            } else {
                depth
            };
            lemma_effect_grow(a.skip(1), n, m, next);
        }
    }
}

impl OpCode {
    /// The byte that encodes this opcode.
    pub fn to_byte(self) -> (r: u8)
        ensures
            r == op_byte(self),
            decode(r) == Some(self),
    {
        match self {
            OpCode::Constant => 0,
            OpCode::Nil => 1,
            OpCode::True => 2,
            OpCode::False => 3,
            OpCode::Equal => 4,
            OpCode::Greater => 5,
            OpCode::Less => 6,
            OpCode::Add => 7,
            OpCode::Subtract => 8,
            OpCode::Multiply => 9,
            OpCode::Divide => 10,
            OpCode::Not => 11,
            OpCode::Negate => 12,
            OpCode::Return => 13,
        }
    }

    /// The opcode that `byte` encodes, if any.
    pub fn from_byte(byte: u8) -> (r: Option<OpCode>)
        ensures
            r == decode(byte),
    {
        if byte == 0 {
            Some(OpCode::Constant)
        } else if byte == 1 {
            Some(OpCode::Nil)
        } else if byte == 2 {
            Some(OpCode::True)
        } else if byte == 3 {
            Some(OpCode::False)
        } else if byte == 4 {
            Some(OpCode::Equal)
        } else if byte == 5 {
            Some(OpCode::Greater)
        } else if byte == 6 {
            Some(OpCode::Less)
        } else if byte == 7 {
            Some(OpCode::Add)
        } else if byte == 8 {
            Some(OpCode::Subtract)
        } else if byte == 9 {
            Some(OpCode::Multiply)
        } else if byte == 10 {
            Some(OpCode::Divide)
        } else if byte == 11 {
            Some(OpCode::Not)
        } else if byte == 12 {
            Some(OpCode::Negate)
        } else if byte == 13 {
            Some(OpCode::Return)
        } else {
            None
        }
    }
}

/// A number literal whose value the embedding program supplies: the constant
/// it fills and the literal's text.
pub struct Numeral {
    pub constant: usize,
    pub text: String,
}

/// Indices of the number constants in `constants`, in order.
pub open spec fn number_indices(constants: Seq<Val>) -> Seq<int>
    decreases constants.len(),
{
    if constants.len() == 0 {
        Seq::empty()
    } else {
        let before = number_indices(constants.drop_last());
        if constants.last() is Number {
            before.push(constants.len() - 1)
        } else {
            before
        }
    }
}

/// The constants that `numerals` fill, in order.
pub open spec fn numeral_indices(numerals: Seq<Numeral>) -> Seq<int> {
    numerals.map_values(|n: Numeral| n.constant as int)
}

/// A unit of bytecode: the instructions, the source line of each byte, the
/// constant pool, and the number literals still to be converted.
pub struct Chunk {
    code: Vec<u8>,
    lines: Vec<u32>,
    constants: ValueArray,
    numerals: Vec<Numeral>,
    capacity: usize,
}

/// What a chunk holds.
pub struct ChunkView {
    pub code: Seq<u8>,
    pub lines: Seq<u32>,
    pub constants: Seq<Val>,
    pub numerals: Seq<Numeral>,
}

impl View for Chunk {
    type V = ChunkView;

    closed spec fn view(&self) -> ChunkView {
        ChunkView {
            code: self.code@,
            lines: self.lines@,
            constants: self.constants@,
            numerals: self.numerals@,
        }
    }
}

impl Chunk {
    /// One line per byte of code, whole instructions, and a pool that 8-bit
    /// indices can address.
    pub open spec fn wf(&self) -> bool {
        &&& self@.code.len() == self@.lines.len()
        &&& self@.constants.len() <= 256
        &&& well_formed(self@.code, self@.constants.len() as int)
        &&& forall|i: int|
            0 <= i < self@.numerals.len() ==> #[trigger] self@.numerals[i].constant
                < self@.constants.len()
    }

    /// The numerals name exactly the number constants, in order.
    pub open spec fn numerals_match(&self) -> bool {
        numeral_indices(self@.numerals) == number_indices(self@.constants)
    }

    pub fn new() -> (r: Self)
        ensures
            r.numerals_match(),
            r@.code.len() == 0,
            r@.lines.len() == 0,
            r@.constants.len() == 0,
            r@.numerals.len() == 0,
    {
        let r = Self {
            code: Vec::new(),
            lines: Vec::new(),
            constants: ValueArray::new(),
            numerals: Vec::new(),
            capacity: 0,
        };
        assert(numeral_indices(r@.numerals) =~= Seq::<int>::empty());
        r
    }

    /// The instruction bytes.
    pub fn code(&self) -> (r: &Vec<u8>)
        ensures
            r@ == self@.code,
    {
        &self.code
    }

    /// The source line of each byte of code.
    pub fn lines(&self) -> (r: &Vec<u32>)
        ensures
            r@ == self@.lines,
    {
        &self.lines
    }

    /// The constant pool.
    pub fn constants(&self) -> (r: &ValueArray)
        ensures
            r@ == self@.constants,
    {
        &self.constants
    }

    /// The number literals whose values the embedding program supplies.
    pub fn numerals(&self) -> (r: &Vec<Numeral>)
        ensures
            r@ == self@.numerals,
    {
        &self.numerals
    }

    /// Appends one byte of code and the line it came from.
    pub fn write(&mut self, byte: u8, line: u32)
        ensures
            final(self)@.code == old(self)@.code.push(byte),
            final(self)@.lines == old(self)@.lines.push(line),
            final(self)@.constants == old(self)@.constants,
            final(self)@.numerals == old(self)@.numerals,
    {
        let count = self.code.len();
        if self.capacity <= count && count <= usize::MAX / 2 {
            let grown = grow_capacity(count);
            self.code.reserve(grown - count);
            if grown >= self.lines.len() {
                self.lines.reserve(grown - self.lines.len());
            }
            self.capacity = grown;
        }
        self.code.push(byte);
        self.lines.push(line);
    }

    /// Adds `value` to the constant pool and returns its index.
    pub fn add_constant(&mut self, value: Value) -> (r: usize)
        requires
            old(self)@.constants.len() < usize::MAX,
        ensures
            final(self)@.constants == old(self)@.constants.push(value@),
            r == old(self)@.constants.len(),
            final(self)@.code == old(self)@.code,
            final(self)@.lines == old(self)@.lines,
            final(self)@.numerals == old(self)@.numerals,
    {
        self.constants.write(value);
        self.constants.len() - 1
    }

    /// Records that the constant at `constant` is the number literal `text`.
    pub fn add_numeral(&mut self, constant: usize, text: String)
        ensures
            final(self)@.numerals == old(self)@.numerals.push(Numeral { constant, text }),
            final(self)@.code == old(self)@.code,
            final(self)@.lines == old(self)@.lines,
            final(self)@.constants == old(self)@.constants,
    {
        self.numerals.push(Numeral { constant, text });
    }

    /// The source line of the byte at `offset`.
    pub fn line(&self, offset: usize) -> (r: u32)
        requires
            offset < self@.lines.len(),
        ensures
            r == self@.lines[offset as int],
    {
        self.lines[offset]
    }

    /// Gives the number constant at `index` its value, the bits of a double.
    pub fn set_number(&mut self, index: usize, bits: u64)
        requires
            index < old(self)@.constants.len(),
        ensures
            final(self)@.constants == old(self)@.constants.update(index as int, Val::Number(bits)),
            old(self)@.constants[index as int] is Number && old(self).numerals_match() ==> final(self).numerals_match(),
            final(self)@.code == old(self)@.code,
            final(self)@.lines == old(self)@.lines,
            final(self)@.numerals == old(self)@.numerals,
    {
        let ghost before = self@.constants;
        self.constants.set(index, Value::Number(bits));
        proof {
            if before[index as int] is Number {
                lemma_number_indices_update(before, index as int, Val::Number(bits));
            }
        }
    }
}

} // verus!
