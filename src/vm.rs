//! The stack machine. Rounding arithmetic on numbers is not done here: when an
//! instruction needs it, `run` hands the operation and its operands to the
//! embedding program, which pushes the result back with `push_number` and calls
//! `run` again.
use vstd::prelude::*;

use crate::chunk::{decode, op_byte, runnable, stack_effect, Chunk, OpCode, is_binary, is_literal, is_unary};
use crate::number::{less, negate, negated, number_lt};
use crate::object::Obj;
use crate::value::{falsey, is_falsey, vals, values_equal, Val, Value};

verus! {

/// What the machine reports at the end of a run.
pub enum InterpretResult {
    Success,
    CompileError,
    RuntimeError,
}

/// A rounding arithmetic operation on two doubles.
#[derive(Debug, Clone, Copy, PartialEq, Eq, Structural)]
pub enum Arith {
    Add,
    Subtract,
    Multiply,
    Divide,
}

/// Why an instruction could not run.
#[derive(Debug, Clone, Copy, PartialEq, Eq, Structural)]
pub enum Fault {
    /// A comparison or arithmetic operand that is not a number.
    NotNumbers,
    /// An addition whose operands are neither two numbers nor two strings.
    NotNumbersOrStrings,
    /// A negation of something that is not a number.
    NotANumber,
}

impl Fault {
    /// The diagnostic printed for the fault.
    pub fn message(&self) -> (r: &'static str)
        ensures
            r@ == match *self {
                Fault::NotNumbers => "Operands must be numbers."@,
                Fault::NotNumbersOrStrings => "Operands must both be numbers or strings."@,
                Fault::NotANumber => "Operand must be a number"@,
            },
    {
        match self {
            Fault::NotNumbers => "Operands must be numbers.",
            Fault::NotNumbersOrStrings => "Operands must both be numbers or strings.",
            Fault::NotANumber => "Operand must be a number",
        }
    }
}

/// A runtime error and the source line of the instruction that raised it.
#[derive(Debug, Clone, Copy, PartialEq, Eq)]
pub struct RuntimeError {
    pub fault: Fault,
    pub line: u32,
}

/// How a run stopped.
pub enum Outcome {
    /// `Return` popped this value; the program is done.
    Returned(Value),
    /// An instruction failed; the stack has been reset.
    Failed(RuntimeError),
    /// The program needs `op` applied to two doubles, given by their bits. The
    /// operands are off the stack; push the result with `push_number`.
    Compute { op: Arith, left: u64, right: u64 },
}

/// The effect of one instruction, as the machine's semantics has it.
pub enum Event {
    Continue,
    Returned(Val),
    Failed(Fault, u32),
    Compute(Arith, u64, u64),
}

pub open spec fn arith_of(op: OpCode) -> Arith {
    if op == OpCode::Add {
        Arith::Add
    } else if op == OpCode::Subtract {
        Arith::Subtract
    } else if op == OpCode::Multiply {
        Arith::Multiply
    } else {
        Arith::Divide
    }
}

/// One instruction at `ip`: the event, the next offset and the next stack.
pub open spec fn step(
    code: Seq<u8>,
    lines: Seq<u32>,
    constants: Seq<Val>,
    ip: int,
    stack: Seq<Val>,
) -> (Event, int, Seq<Val>) {
    let n = stack.len();
    let line = lines[ip];
    let below = stack.take(n - 2);
    match decode(code[ip]) {
        Some(OpCode::Constant) => (Event::Continue, ip + 2, stack.push(constants[code[ip + 1] as int])),
        Some(OpCode::Nil) => (Event::Continue, ip + 1, stack.push(Val::Nil)),
        Some(OpCode::True) => (Event::Continue, ip + 1, stack.push(Val::Bool(true))),
        Some(OpCode::False) => (Event::Continue, ip + 1, stack.push(Val::Bool(false))),
        Some(OpCode::Equal) => (
            Event::Continue,
            ip + 1,
            below.push(Val::Bool(values_equal(stack[n - 2], stack[n - 1]))),
        ),
        Some(OpCode::Greater) => match (stack[n - 2], stack[n - 1]) {
            (Val::Number(a), Val::Number(b)) => (
                Event::Continue,
                ip + 1,
                below.push(Val::Bool(number_lt(b, a))),
            ),
            _ => (Event::Failed(Fault::NotNumbers, line), ip + 1, Seq::empty()),
        },
        Some(OpCode::Less) => match (stack[n - 2], stack[n - 1]) {
            (Val::Number(a), Val::Number(b)) => (
                Event::Continue,
                ip + 1,
                below.push(Val::Bool(number_lt(a, b))),
            ),
            _ => (Event::Failed(Fault::NotNumbers, line), ip + 1, Seq::empty()),
        },
        Some(OpCode::Add) => match (stack[n - 2], stack[n - 1]) {
            (Val::Str(a), Val::Str(b)) => (Event::Continue, ip + 1, below.push(Val::Str(a + b))),
            (Val::Number(a), Val::Number(b)) => (Event::Compute(Arith::Add, a, b), ip + 1, below),
            _ => (Event::Failed(Fault::NotNumbersOrStrings, line), ip + 1, Seq::empty()),
        },
        Some(OpCode::Not) => (
            Event::Continue,
            ip + 1,
            stack.take(n - 1).push(Val::Bool(falsey(stack[n - 1]))),
        ),
        Some(OpCode::Negate) => match stack[n - 1] {
            Val::Number(x) => (Event::Continue, ip + 1, stack.take(n - 1).push(Val::Number(negated(x)))),
            _ => (Event::Failed(Fault::NotANumber, line), ip + 1, Seq::empty()),
        },
        Some(OpCode::Return) => (Event::Returned(stack[n - 1]), ip + 1, stack.take(n - 1)),
        Some(op) => match (stack[n - 2], stack[n - 1]) {
            (Val::Number(a), Val::Number(b)) => (Event::Compute(arith_of(op), a, b), ip + 1, below),
            _ => (Event::Failed(Fault::NotNumbers, line), ip + 1, Seq::empty()),
        },
        None => (Event::Continue, ip, stack),
    }
}

/// Instructions from `ip` on until one does more than continue.
pub open spec fn run_from(
    code: Seq<u8>,
    lines: Seq<u32>,
    constants: Seq<Val>,
    ip: int,
    stack: Seq<Val>,
) -> (Event, int, Seq<Val>)
    decreases code.len() - ip,
{
    if 0 <= ip < code.len() {
        let (event, next, after) = step(code, lines, constants, ip, stack);
        if event is Continue && ip < next <= code.len() {
            run_from(code, lines, constants, next, after)
        } else {
            (event, next, after)
        }
    } else {
        (Event::Continue, ip, stack)
    }
}

/// Whether an outcome reports `event`.
pub open spec fn reports(outcome: Outcome, event: Event) -> bool {
    match outcome {
        Outcome::Returned(v) => event == Event::Returned(v@),
        Outcome::Failed(e) => event == Event::Failed(e.fault, e.line),
        Outcome::Compute { op, left, right } => event == Event::Compute(op, left, right),
    }
}

/// What `runnable` says of the instruction at `ip`: it decodes, its operand
/// and its operands on the stack are there, and the machine stays runnable
/// after it. Only the last byte is a `Return`, and it finds one value.
pub proof fn lemma_runnable_step(code: Seq<u8>, n: int, ip: int, depth: int)
    requires
        runnable(code, n, ip, depth),
    ensures
        ip == code.len() - 1 ==> decode(code[ip]) == Some(OpCode::Return) && depth == 1,
        ip < code.len() - 1 ==> match decode(code[ip]) {
            Some(OpCode::Constant) => ip + 2 <= code.len() - 1 && code[ip + 1] < n && runnable(
                code,
                n,
                ip + 2,
                depth + 1,
            ),
            Some(op) => {
                &&& op != OpCode::Return
                &&& is_literal(op) ==> runnable(code, n, ip + 1, depth + 1)
                &&& is_binary(op) ==> depth >= 2 && runnable(code, n, ip + 1, depth - 1)
                &&& is_unary(op) ==> depth >= 1 && runnable(code, n, ip + 1, depth)
                &&& (is_literal(op) || is_binary(op) || is_unary(op))
            },
            None => false,
        },
{
    let rest = code.subrange(ip, code.len() - 1);
    if ip == code.len() - 1 {
        assert(rest.len() == 0);
    } else {
        assert(rest[0] == code[ip]);
        assert(rest.skip(1) =~= code.subrange(ip + 1, code.len() - 1));
        if rest.len() >= 2 {
            assert(rest[1] == code[ip + 1]);
            assert(rest.skip(2) =~= code.subrange(ip + 2, code.len() - 1));
        }
    }
}

/// The machine: an offset into the chunk's code and a stack of values.
pub struct VM {
    ip: usize,
    stack: Vec<Value>,
}

impl VM {
    /// Offset of the next byte to fetch.
    pub closed spec fn ip_pos(&self) -> int {
        self.ip as int
    }

    /// The stack, bottom first.
    pub closed spec fn stack_vals(&self) -> Seq<Val> {
        vals(self.stack@)
    }

    pub fn new() -> (r: Self)
        ensures
            r.ip_pos() == 0,
            r.stack_vals() == Seq::<Val>::empty(),
    {
        let r = VM { ip: 0, stack: Vec::new() };
        assert(r.stack_vals() =~= Seq::<Val>::empty());
        r
    }

    /// Points the machine at the start of a chunk, with an empty stack.
    pub fn start(&mut self)
        ensures
            final(self).ip_pos() == 0,
            final(self).stack_vals() == Seq::<Val>::empty(),
    {
        self.ip = 0;
        self.reset_stack();
    }

    fn reset_stack(&mut self)
        ensures
            final(self).ip_pos() == old(self).ip_pos(),
            final(self).stack_vals() == Seq::<Val>::empty(),
    {
        self.stack.clear();
        assert(self.stack_vals() =~= Seq::<Val>::empty());
    }

    pub fn push(&mut self, value: Value)
        ensures
            final(self).ip_pos() == old(self).ip_pos(),
            final(self).stack_vals() == old(self).stack_vals().push(value@),
    {
        self.stack.push(value);
        assert(self.stack_vals() =~= old(self).stack_vals().push(value@));
    }

    pub fn pop(&mut self) -> (r: Value)
        requires
            old(self).stack_vals().len() > 0,
        ensures
            final(self).ip_pos() == old(self).ip_pos(),
            r@ == old(self).stack_vals().last(),
            final(self).stack_vals() == old(self).stack_vals().drop_last(),
    {
        let r = self.stack.pop().unwrap();
        assert(self.stack_vals() =~= old(self).stack_vals().drop_last());
        r
    }

    /// The value `distance` slots below the top; 0 is the top.
    pub fn peek(&self, distance: usize) -> (r: &Value)
        requires
            distance < self.stack_vals().len(),
        ensures
            r@ == self.stack_vals()[self.stack_vals().len() - 1 - distance],
    {
        &self.stack[self.stack.len() - 1 - distance]
    }

    /// Offset of the next byte to fetch.
    pub fn offset(&self) -> (r: usize)
        ensures
            r == self.ip_pos(),
    {
        self.ip
    }

    /// Number of values on the stack.
    pub fn stack_len(&self) -> (r: usize)
        ensures
            r == self.stack_vals().len(),
    {
        self.stack.len()
    }

    /// Delivers the result of a `Compute` outcome.
    pub fn push_number(&mut self, bits: u64)
        ensures
            final(self).ip_pos() == old(self).ip_pos(),
            final(self).stack_vals() == old(self).stack_vals().push(Val::Number(bits)),
    {
        self.push(Value::Number(bits));
    }

    /// Reports `fault` at the line of the instruction just fetched, and
    /// empties the stack.
    fn runtime_error(&mut self, fault: Fault, chunk: &Chunk) -> (r: Outcome)
        requires
            0 < old(self).ip_pos() <= chunk@.lines.len(),
        ensures
            r == Outcome::Failed(RuntimeError { fault, line: chunk@.lines[old(self).ip_pos() - 1] }),
            final(self).ip_pos() == old(self).ip_pos(),
            final(self).stack_vals() == Seq::<Val>::empty(),
    {
        let line = chunk.line(self.ip - 1);
        self.reset_stack();
        Outcome::Failed(RuntimeError { fault, line })
    }

    /// Replaces the two strings on top of the stack with their concatenation.
    fn concatenate(&mut self)
        requires
            old(self).stack_vals().len() >= 2,
            old(self).stack_vals()[old(self).stack_vals().len() - 2] is Str,
            old(self).stack_vals()[old(self).stack_vals().len() - 1] is Str,
        ensures
            final(self).ip_pos() == old(self).ip_pos(),
            ({
                let st = old(self).stack_vals();
                let n = st.len();
                final(self).stack_vals() == st.take(n - 2).push(
                    Val::Str(st[n - 2]->Str_0 + st[n - 1]->Str_0),
                )
            }),
    {
        let ghost st = self.stack_vals();
        let b = self.pop();
        let a = self.pop();
        let a_chars = a.as_string();
        let b_chars = b.as_string();
        let mut chars: Vec<u8> = Vec::new();
        let mut i: usize = 0;
        while i < a_chars.len()
            invariant
                i <= a_chars@.len(),
                chars@ == a_chars@.subrange(0, i as int),
            decreases a_chars@.len() - i,
        {
            chars.push(a_chars[i]);
            i = i + 1;
            assert(chars@ =~= a_chars@.subrange(0, i as int));
        }
        let mut j: usize = 0;
        while j < b_chars.len()
            invariant
                j <= b_chars@.len(),
                chars@ == a_chars@ + b_chars@.subrange(0, j as int),
            decreases b_chars@.len() - j,
        {
            chars.push(b_chars[j]);
            j = j + 1;
            assert(chars@ =~= a_chars@ + b_chars@.subrange(0, j as int));
        }
        assert(chars@ =~= a_chars@ + b_chars@);
        self.push(Value::Obj(Obj::take_string(chars)));
        assert(st.drop_last().drop_last() =~= st.take(st.len() - 2));
    }

    /// Runs the instruction at the current offset. `None` when the program
    /// goes on; otherwise how it stopped, as `run` reports it.
    pub fn step(&mut self, chunk: &Chunk) -> (r: Option<Outcome>)
        requires
            chunk.wf(),
            runnable(
                chunk@.code,
                chunk@.constants.len() as int,
                old(self).ip_pos(),
                old(self).stack_vals().len() as int,
            ),
        ensures
            ({
                let (event, next, after) = step(
                    chunk@.code,
                    chunk@.lines,
                    chunk@.constants,
                    old(self).ip_pos(),
                    old(self).stack_vals(),
                );
                &&& final(self).ip_pos() == next
                &&& final(self).stack_vals() == after
                &&& old(self).ip_pos() < next <= chunk@.code.len()
                &&& match r {
                    None => event is Continue && runnable(
                        chunk@.code,
                        chunk@.constants.len() as int,
                        next,
                        after.len() as int,
                    ),
                    Some(outcome) => reports(outcome, event),
                }
            }),
            r matches Some(o) && o is Compute ==> runnable(
                chunk@.code,
                chunk@.constants.len() as int,
                final(self).ip_pos(),
                final(self).stack_vals().len() + 1int,
            ),
            r matches Some(o) && o is Returned ==> final(self).stack_vals().len() == 0,
    {
        let code = chunk.code();
        let length = code.len();
        let ghost n_constants = chunk@.constants.len() as int;
        let ghost at = self.ip_pos();
        let ghost st0 = self.stack_vals();
        let ghost depth = st0.len();
        proof {
            lemma_runnable_step(code@, n_constants, at, depth as int);
        }
        assert(self.ip < length);
        let instruction = code[self.ip];
        self.ip = self.ip + 1;
        match OpCode::from_byte(instruction) {
            Some(OpCode::Constant) => {
                let index = code[self.ip];
                self.ip = self.ip + 1;
                let value = chunk.constants().get(index as usize).duplicate();
                self.push(value);
            },
            Some(OpCode::Nil) => self.push(Value::Nil),
            Some(OpCode::True) => self.push(Value::Bool(true)),
            Some(OpCode::False) => self.push(Value::Bool(false)),
            Some(OpCode::Equal) => {
                let b = self.pop();
                let a = self.pop();
                self.push(Value::Bool(a.equals(&b)));
                assert(st0.drop_last().drop_last() =~= st0.take(depth - 2));
            },
            Some(OpCode::Greater) => {
                if self.peek(0).is_number() && self.peek(1).is_number() {
                    let b = self.pop().as_number();
                    let a = self.pop().as_number();
                    self.push(Value::Bool(less(b, a)));
                    assert(st0.drop_last().drop_last() =~= st0.take(depth - 2));
                } else {
                    return Some(self.runtime_error(Fault::NotNumbers, chunk));
                }
            },
            Some(OpCode::Less) => {
                if self.peek(0).is_number() && self.peek(1).is_number() {
                    let b = self.pop().as_number();
                    let a = self.pop().as_number();
                    self.push(Value::Bool(less(a, b)));
                    assert(st0.drop_last().drop_last() =~= st0.take(depth - 2));
                } else {
                    return Some(self.runtime_error(Fault::NotNumbers, chunk));
                }
            },
            Some(OpCode::Add) => {
                if self.peek(0).is_string() && self.peek(1).is_string() {
                    self.concatenate();
                } else if self.peek(0).is_number() && self.peek(1).is_number() {
                    let right = self.pop().as_number();
                    let left = self.pop().as_number();
                    assert(st0.drop_last().drop_last() =~= st0.take(depth - 2));
                    return Some(Outcome::Compute { op: Arith::Add, left, right });
                } else {
                    return Some(self.runtime_error(Fault::NotNumbersOrStrings, chunk));
                }
            },
            Some(OpCode::Subtract) => {
                return Some(self.arithmetic(Arith::Subtract, chunk));
            },
            Some(OpCode::Multiply) => {
                return Some(self.arithmetic(Arith::Multiply, chunk));
            },
            Some(OpCode::Divide) => {
                return Some(self.arithmetic(Arith::Divide, chunk));
            },
            Some(OpCode::Not) => {
                let value = self.pop();
                self.push(Value::Bool(is_falsey(&value)));
                assert(st0.drop_last() =~= st0.take(depth - 1));
            },
            Some(OpCode::Negate) => {
                if self.peek(0).is_number() {
                    let x = self.pop().as_number();
                    self.push(Value::Number(negate(x)));
                    assert(st0.drop_last() =~= st0.take(depth - 1));
                } else {
                    return Some(self.runtime_error(Fault::NotANumber, chunk));
                }
            },
            Some(OpCode::Return) => {
                let value = self.pop();
                assert(st0.drop_last() =~= st0.take(depth - 1));
                return Some(Outcome::Returned(value));
            },
            None => {
                proof {
                    assert(false);
                }
                return Some(self.runtime_error(Fault::NotNumbers, chunk));
            },
        }
        None
    }

    /// Runs instructions from the current offset until the program returns,
    /// an instruction fails, or the program needs arithmetic on doubles.
    pub fn run(&mut self, chunk: &Chunk) -> (r: Outcome)
        requires
            chunk.wf(),
            runnable(
                chunk@.code,
                chunk@.constants.len() as int,
                old(self).ip_pos(),
                old(self).stack_vals().len() as int,
            ),
        ensures
            ({
                let (event, next, after) = run_from(
                    chunk@.code,
                    chunk@.lines,
                    chunk@.constants,
                    old(self).ip_pos(),
                    old(self).stack_vals(),
                );
                &&& reports(r, event)
                &&& final(self).ip_pos() == next
                &&& final(self).stack_vals() == after
            }),
            r is Compute ==> runnable(
                chunk@.code,
                chunk@.constants.len() as int,
                final(self).ip_pos(),
                final(self).stack_vals().len() + 1int,
            ),
            r is Returned ==> final(self).stack_vals().len() == 0,
    {
        let ghost target = run_from(
            chunk@.code,
            chunk@.lines,
            chunk@.constants,
            self.ip_pos(),
            self.stack_vals(),
        );
        loop
            invariant
                chunk.wf(),
                target == run_from(
                    chunk@.code,
                    chunk@.lines,
                    chunk@.constants,
                    old(self).ip_pos(),
                    old(self).stack_vals(),
                ),
                runnable(
                    chunk@.code,
                    chunk@.constants.len() as int,
                    self.ip_pos(),
                    self.stack_vals().len() as int,
                ),
                run_from(chunk@.code, chunk@.lines, chunk@.constants, self.ip_pos(), self.stack_vals())
                    == target,
            decreases chunk@.code.len() - self.ip_pos(),
        {
            match self.step(chunk) {
                Some(outcome) => {
                    return outcome;
                },
                None => {},
            }
        }
    }

    /// Pops two numbers for the embedding program to combine, or fails when
    /// either operand is not a number.
    fn arithmetic(&mut self, op: Arith, chunk: &Chunk) -> (r: Outcome)
        requires
            old(self).stack_vals().len() >= 2,
            0 < old(self).ip_pos() <= chunk@.lines.len(),
        ensures
            final(self).ip_pos() == old(self).ip_pos(),
            ({
                let st = old(self).stack_vals();
                let n = st.len();
                match (st[n - 2], st[n - 1]) {
                    (Val::Number(a), Val::Number(b)) => {
                        &&& r == Outcome::Compute { op, left: a, right: b }
                        &&& final(self).stack_vals() == st.take(n - 2)
                    },
                    _ => {
                        &&& r == Outcome::Failed(
                            RuntimeError { fault: Fault::NotNumbers, line: chunk@.lines[old(self).ip_pos() - 1] },
                        )
                        &&& final(self).stack_vals() == Seq::<Val>::empty()
                    },
                }
            }),
    {
        let ghost st = self.stack_vals();
        if self.peek(0).is_number() && self.peek(1).is_number() {
            let right = self.pop().as_number();
            let left = self.pop().as_number();
            assert(st.drop_last().drop_last() =~= st.take(st.len() - 2));
            Outcome::Compute { op, left, right }
        } else {
            self.runtime_error(Fault::NotNumbers, chunk)
        }
    }
}

} // verus!
