use vstd::prelude::*;
use vstd::string::StringSliceAdditionalSpecFns;
use crate::chunk::{Chunk, Opcode, Value, decode_byte, opcode_byte};
use crate::compiler::{Compiler, Diagnostic, Numbers, compiled, constants_read};
use crate::scanner::{TokenKind, scan_step};

verus! {

/// How a run of the machine ends.
#[derive(Clone, Copy, Debug, PartialEq, Eq, Structural)]
pub enum InterpretResult {
    /// A `RETURN` ran.
    Success,
    /// The source did not compile, or the code ended without a `RETURN`.
    CompileError,
    /// The stack ran dry or over, or a `CONSTANT` named no constant.
    RuntimeError,
}

/// The most values the stack holds.
pub const STACK_MAX: usize = 256;

/// The arithmetic of values, which the machine leaves to its user.
pub trait Arithmetic {
    fn add(&self, a: Value, b: Value) -> Value;

    fn subtract(&self, a: Value, b: Value) -> Value;

    fn multiply(&self, a: Value, b: Value) -> Value;

    fn divide(&self, a: Value, b: Value) -> Value;

    fn negate(&self, a: Value) -> Value;
}

/// What one instruction asks of the machine's user.
#[derive(Clone, Copy, Debug, PartialEq, Eq)]
pub enum Step {
    /// A constant was pushed.
    Pushed,
    /// A binary instruction popped `a`, then `b`; `a OP b` is to be pushed.
    Binary(Opcode, Value, Value),
    /// `NEGATE` popped a value; its negation is to be pushed.
    Negate(Value),
    /// `RETURN` popped the result.
    Return(Value),
    /// A byte that is no instruction was skipped.
    Invalid(u8),
    /// The code ended without a `RETURN`.
    Halt,
    /// The instruction could not run: too few or too many values on the
    /// stack, or a `CONSTANT` without a valid operand.
    Fault,
}

/// Where control goes after one instruction.
pub enum Flow {
    Next,
    Invalid(u8),
    Done(InterpretResult),
}

pub open spec fn is_binary(op: Opcode) -> bool {
    op == Opcode::Add || op == Opcode::Subtract || op == Opcode::Multiply || op == Opcode::Divide
}

/// The effect of the instruction at `ip` on control: the flow, the next
/// instruction pointer, and the stack depth once the instruction is done.
/// It does not depend on the values on the stack.
pub open spec fn effect(code: Seq<u8>, n: nat, ip: int, depth: int) -> (Flow, int, int) {
    if ip < 0 || ip >= code.len() {
        (Flow::Done(InterpretResult::CompileError), ip, depth)
    } else {
        match decode_byte(code[ip]) {
            None => (Flow::Invalid(code[ip]), ip + 1, depth),
            Some(Opcode::Constant) => {
                if ip + 1 < code.len() && code[ip + 1] < n && depth < STACK_MAX {
                    (Flow::Next, ip + 2, depth + 1)
                } else {
                    (Flow::Done(InterpretResult::RuntimeError), ip, depth)
                }
            },
            Some(Opcode::Negate) => {
                if depth >= 1 {
                    (Flow::Next, ip + 1, depth)
                } else {
                    (Flow::Done(InterpretResult::RuntimeError), ip, depth)
                }
            },
            Some(Opcode::Return) => {
                if depth >= 1 {
                    (Flow::Done(InterpretResult::Success), ip + 1, depth - 1)
                } else {
                    (Flow::Done(InterpretResult::RuntimeError), ip, depth)
                }
            },
            Some(_) => {
                if depth >= 2 {
                    (Flow::Next, ip + 1, depth - 1)
                } else {
                    (Flow::Done(InterpretResult::RuntimeError), ip, depth)
                }
            },
        }
    }
}

/// How a run that starts at `ip` with `depth` values on the stack ends.
pub open spec fn run_outcome(code: Seq<u8>, n: nat, ip: int, depth: int) -> InterpretResult
    decreases code.len() - ip,
{
    let (f, ip2, d2) = effect(code, n, ip, depth);
    if ip < 0 || ip >= code.len() {
        InterpretResult::CompileError
    } else {
        match f {
            Flow::Done(r) => r,
            _ => run_outcome(code, n, ip2, d2),
        }
    }
}

/// The stack depth when a run that starts at `ip` with `depth` values on the
/// stack ends.
pub open spec fn end_depth(code: Seq<u8>, n: nat, ip: int, depth: int) -> int
    decreases code.len() - ip,
{
    let (f, ip2, d2) = effect(code, n, ip, depth);
    if ip < 0 || ip >= code.len() {
        depth
    } else {
        match f {
            Flow::Done(InterpretResult::Success) => d2,
            Flow::Done(_) => depth,
            _ => end_depth(code, n, ip2, d2),
        }
    }
}

/// The bytes that are no instruction, met in order by a run that starts at
/// `ip` with `depth` values on the stack.
pub open spec fn run_invalid(code: Seq<u8>, n: nat, ip: int, depth: int) -> Seq<u8>
    decreases code.len() - ip,
{
    let (f, ip2, d2) = effect(code, n, ip, depth);
    if ip < 0 || ip >= code.len() {
        Seq::empty()
    } else {
        match f {
            Flow::Done(_) => Seq::empty(),
            Flow::Invalid(b) => seq![b] + run_invalid(code, n, ip2, d2),
            Flow::Next => run_invalid(code, n, ip2, d2),
        }
    }
}

/// `v` is a value that `arith` may return for the instruction `op` on the
/// operands `a` (popped first) and `b` (popped second); `NEGATE` takes `a` alone.
pub open spec fn computes<A: Arithmetic>(arith: &A, op: Opcode, a: Value, b: Value, v: Value) -> bool {
    match op {
        Opcode::Add => call_ensures(A::add, (arith, a, b), v),
        Opcode::Subtract => call_ensures(A::subtract, (arith, a, b), v),
        Opcode::Multiply => call_ensures(A::multiply, (arith, a, b), v),
        Opcode::Divide => call_ensures(A::divide, (arith, a, b), v),
        Opcode::Negate => call_ensures(A::negate, (arith, a), v),
        _ => false,
    }
}

/// A run of `code` with constants `k` from `ip` on a stack `st` ends with the
/// instruction pointer at `ip2`, the stack `st2`, and the value `out` that
/// `RETURN` popped (`None` where the run ended otherwise), when `rs` lists,
/// in order, the values that `arith` returned for the run's arithmetic
/// instructions, each pushed in place of its operands.
pub open spec fn runs_to<A: Arithmetic>(
    arith: &A,
    code: Seq<u8>,
    k: Seq<Value>,
    ip: int,
    st: Seq<Value>,
    rs: Seq<Value>,
    ip2: int,
    st2: Seq<Value>,
    out: Option<Value>,
) -> bool
    decreases code.len() - ip,
{
    let stop = ip2 == ip && st2 == st && out is None && rs.len() == 0;
    if ip < 0 || ip >= code.len() {
        stop
    } else {
        match decode_byte(code[ip]) {
            None => runs_to(arith, code, k, ip + 1, st, rs, ip2, st2, out),
            Some(Opcode::Constant) => {
                if ip + 1 < code.len() && code[ip + 1] < k.len() && st.len() < STACK_MAX {
                    runs_to(arith, code, k, ip + 2, st.push(k[code[ip + 1] as int]), rs, ip2, st2, out)
                } else {
                    stop
                }
            },
            Some(Opcode::Return) => {
                if st.len() >= 1 {
                    ip2 == ip + 1 && st2 == st.drop_last() && out == Some(st.last()) && rs.len() == 0
                } else {
                    stop
                }
            },
            Some(Opcode::Negate) => {
                if st.len() >= 1 && rs.len() >= 1 {
                    computes(arith, Opcode::Negate, st.last(), 0, rs[0]) && runs_to(
                        arith,
                        code,
                        k,
                        ip + 1,
                        st.drop_last().push(rs[0]),
                        rs.drop_first(),
                        ip2,
                        st2,
                        out,
                    )
                } else {
                    st.len() < 1 && stop
                }
            },
            Some(op) => {
                if st.len() >= 2 && rs.len() >= 1 {
                    computes(arith, op, st.last(), st[st.len() - 2], rs[0]) && runs_to(
                        arith,
                        code,
                        k,
                        ip + 1,
                        st.drop_last().drop_last().push(rs[0]),
                        rs.drop_first(),
                        ip2,
                        st2,
                        out,
                    )
                } else {
                    st.len() < 2 && stop
                }
            },
        }
    }
}

/// Executes chunks on a stack of values.
pub struct VM {
    pub chunk: Chunk,
    pub ip: usize,
    pub stack: Vec<Value>,
}

impl VM {
    pub open spec fn wf(self) -> bool {
        &&& self.chunk.wf()
        &&& self.ip <= self.chunk@.code.len()
        &&& self.stack@.len() <= STACK_MAX
    }

    /// A machine with an empty chunk and an empty stack.
    pub fn new() -> (r: Self)
        ensures
            r.wf(),
            r.chunk@.code.len() == 0,
            r.ip == 0,
            r.stack@.len() == 0,
    {
        VM { chunk: Chunk::new(), ip: 0, stack: Vec::new() }
    }

    /// Installs `chunk`, with the instruction pointer at its start and an
    /// empty stack.
    pub fn install(&mut self, chunk: Chunk)
        requires
            chunk.wf(),
        ensures
            final(self).wf(),
            final(self).chunk == chunk,
            final(self).ip == 0,
            final(self).stack@.len() == 0,
    {
        self.chunk = chunk;
        self.ip = 0;
        self.stack = Vec::new();
    }

    /// Compiles `source` and, on success, installs its chunk. On failure the
    /// machine is left as it was and the diagnostics are returned.
    pub fn load<'a, N: Numbers>(&mut self, source: &'a str, numbers: &N) -> (r: Result<
        (),
        Vec<Diagnostic<'a>>,
    >)
        requires
            source.spec_bytes().len() < usize::MAX,
        ensures
            r is Ok <==> compiled(source.spec_bytes()) is Some,
            r is Ok ==> final(self).chunk@.code == (compiled(source.spec_bytes())->0).0,
            r is Ok ==> final(self).chunk@.lines == (compiled(source.spec_bytes())->0).1,
            r is Ok ==> constants_read(numbers, source.spec_bytes(), final(self).chunk@.constants, 0),
            r is Ok ==> final(self).chunk@.constants.len() == (compiled(source.spec_bytes())->0).2,
            scan_step(source.spec_bytes(), 0, 1).kind == TokenKind::Error ==> r is Err,
            r is Ok ==> {
                &&& final(self).wf()
                &&& final(self).ip == 0
                &&& final(self).stack@.len() == 0
                &&& final(self).chunk.is_complete()
                &&& final(self).chunk@.code.len() > 0
                &&& final(self).chunk@.code.last() == opcode_byte(Opcode::Return)
                &&& run_outcome(
                    final(self).chunk@.code,
                    final(self).chunk@.constants.len(),
                    0,
                    0,
                ) == InterpretResult::Success
                &&& end_depth(
                    final(self).chunk@.code,
                    final(self).chunk@.constants.len(),
                    0,
                    0,
                ) == 0
            },
            r matches Err(d) ==> d@.len() > 0 && *final(self) == *old(self),
    {
        let mut compiler = Compiler::new(source);
        match compiler.compile(numbers) {
            Some(chunk) => {
                self.install(chunk);
                Ok(())
            },
            None => Err(compiler.parser.diagnostics),
        }
    }

    /// Pushes a value.
    pub fn push(&mut self, value: Value)
        requires
            old(self).stack@.len() < STACK_MAX,
        ensures
            final(self).stack@ == old(self).stack@.push(value),
            final(self).chunk == old(self).chunk,
            final(self).ip == old(self).ip,
    {
        self.stack.push(value);
    }

    /// Pops the top value.
    pub fn pop(&mut self) -> (r: Value)
        requires
            old(self).stack@.len() > 0,
        ensures
            r == old(self).stack@.last(),
            final(self).stack@ == old(self).stack@.drop_last(),
            final(self).chunk == old(self).chunk,
            final(self).ip == old(self).ip,
    {
        let r = self.stack.pop();
        match r {
            Some(v) => v,
            None => 0,
        }
    }

    /// Reads the byte at the instruction pointer and moves past it.
    pub fn read_byte(&mut self) -> (r: u8)
        requires
            old(self).ip < old(self).chunk@.code.len(),
        ensures
            r == old(self).chunk@.code[old(self).ip as int],
            final(self).ip == old(self).ip + 1,
            final(self).chunk == old(self).chunk,
            final(self).stack == old(self).stack,
    {
        let n = self.chunk.code().len();
        proof {
            assert(self.ip < n);
        }
        let b = self.chunk.code()[self.ip];
        self.ip = self.ip + 1;
        b
    }

    /// Reads the instruction at the instruction pointer and moves past it.
    pub fn read_instruction(&mut self) -> (r: Option<Opcode>)
        requires
            old(self).ip < old(self).chunk@.code.len(),
        ensures
            r == decode_byte(old(self).chunk@.code[old(self).ip as int]),
            final(self).ip == old(self).ip + 1,
            final(self).chunk == old(self).chunk,
            final(self).stack == old(self).stack,
    {
        Opcode::from_byte(self.read_byte())
    }

    /// Reads a constant operand at the instruction pointer, moves past it,
    /// and returns the constant it names.
    pub fn read_constant(&mut self) -> (r: Value)
        requires
            old(self).ip < old(self).chunk@.code.len(),
            old(self).chunk@.code[old(self).ip as int] < old(self).chunk@.constants.len(),
        ensures
            r == old(self).chunk@.constants[old(self).chunk@.code[old(self).ip as int] as int],
            final(self).ip == old(self).ip + 1,
            final(self).chunk == old(self).chunk,
            final(self).stack == old(self).stack,
    {
        let idx = self.read_byte() as usize;
        self.chunk.constants()[idx]
    }

    /// Runs the instruction at the instruction pointer, as far as the machine
    /// can alone: what is left to do is in the returned step.
    pub fn step(&mut self) -> (r: Step)
        requires
            old(self).wf(),
        ensures
            final(self).wf(),
            final(self).chunk == old(self).chunk,
            ({
                let code = old(self).chunk@.code;
                let st = old(self).stack@;
                let ip = old(self).ip as int;
                let (f, ip2, d2) = effect(code, old(self).chunk@.constants.len(), ip, st.len() as int);
                &&& final(self).ip == ip2
                &&& match r {
                    Step::Pushed => {
                        &&& f is Next
                        &&& decode_byte(code[ip]) == Some(Opcode::Constant)
                        &&& final(self).stack@ == st.push(
                            old(self).chunk@.constants[code[ip + 1] as int],
                        )
                    },
                    Step::Binary(op, a, b) => {
                        &&& f is Next
                        &&& decode_byte(code[ip]) == Some(op)
                        &&& is_binary(op)
                        &&& a == st.last()
                        &&& b == st[st.len() - 2]
                        &&& final(self).stack@ == st.drop_last().drop_last()
                        &&& final(self).stack@.len() + 1 == d2
                    },
                    Step::Negate(a) => {
                        &&& f is Next
                        &&& decode_byte(code[ip]) == Some(Opcode::Negate)
                        &&& a == st.last()
                        &&& final(self).stack@ == st.drop_last()
                        &&& final(self).stack@.len() + 1 == d2
                    },
                    Step::Return(a) => {
                        &&& f == Flow::Done(InterpretResult::Success)
                        &&& a == st.last()
                        &&& final(self).stack@ == st.drop_last()
                    },
                    Step::Invalid(b) => {
                        &&& f == Flow::Invalid(b)
                        &&& final(self).stack@ == st
                    },
                    Step::Halt => {
                        &&& f == Flow::Done(InterpretResult::CompileError)
                        &&& final(self).stack@ == st
                    },
                    Step::Fault => {
                        &&& f == Flow::Done(InterpretResult::RuntimeError)
                        &&& final(self).stack@ == st
                    },
                }
            }),
    {
        if self.ip >= self.chunk.code().len() {
            return Step::Halt;
        }
        let ip = self.ip;
        let depth = self.stack.len();
        let byte = self.chunk.code()[ip];
        match Opcode::from_byte(byte) {
            None => {
                self.ip = ip + 1;
                Step::Invalid(byte)
            },
            Some(Opcode::Constant) => {
                if ip + 1 < self.chunk.code().len() && (self.chunk.code()[ip + 1] as usize)
                    < self.chunk.constants().len() && depth < STACK_MAX {
                    self.ip = ip + 1;
                    let value = self.read_constant();
                    self.push(value);
                    Step::Pushed
                } else {
                    Step::Fault
                }
            },
            Some(Opcode::Negate) => {
                if depth >= 1 {
                    self.ip = ip + 1;
                    Step::Negate(self.pop())
                } else {
                    Step::Fault
                }
            },
            Some(Opcode::Return) => {
                if depth >= 1 {
                    self.ip = ip + 1;
                    Step::Return(self.pop())
                } else {
                    Step::Fault
                }
            },
            Some(op) => {
                if depth >= 2 {
                    self.ip = ip + 1;
                    let a = self.pop();
                    let b = self.pop();
                    Step::Binary(op, a, b)
                } else {
                    Step::Fault
                }
            },
        }
    }

    /// Runs the installed chunk from the instruction pointer until a `RETURN`,
    /// the end of the code, or a fault, with `arith` doing the arithmetic.
    /// Returns how the run ended, the value that `RETURN` popped, and the
    /// bytes that were skipped as no instruction.
    pub fn run<A: Arithmetic>(&mut self, arith: &A) -> (r: (InterpretResult, Option<Value>, Vec<u8>))
        requires
            old(self).wf(),
        ensures
            final(self).wf(),
            final(self).chunk == old(self).chunk,
            r.0 == run_outcome(
                old(self).chunk@.code,
                old(self).chunk@.constants.len(),
                old(self).ip as int,
                old(self).stack@.len() as int,
            ),
            r.2@ == run_invalid(
                old(self).chunk@.code,
                old(self).chunk@.constants.len(),
                old(self).ip as int,
                old(self).stack@.len() as int,
            ),
            r.1 is Some <==> r.0 == InterpretResult::Success,
            final(self).stack@.len() == end_depth(
                old(self).chunk@.code,
                old(self).chunk@.constants.len(),
                old(self).ip as int,
                old(self).stack@.len() as int,
            ),
            exists|rs: Seq<Value>|
                runs_to(
                    arith,
                    old(self).chunk@.code,
                    old(self).chunk@.constants,
                    old(self).ip as int,
                    old(self).stack@,
                    rs,
                    final(self).ip as int,
                    final(self).stack@,
                    r.1,
                ),
    {
        let ghost code = self.chunk@.code;
        let ghost k = self.chunk@.constants;
        let ghost mut done: Seq<Value> = Seq::empty();
        let ghost n = self.chunk@.constants.len();
        let mut invalid: Vec<u8> = Vec::new();
        loop
            invariant
                self.wf(),
                self.chunk == old(self).chunk,
                code == self.chunk@.code,
                n == self.chunk@.constants.len(),
                run_outcome(code, n, self.ip as int, self.stack@.len() as int) == run_outcome(
                    code,
                    n,
                    old(self).ip as int,
                    old(self).stack@.len() as int,
                ),
                invalid@ + run_invalid(code, n, self.ip as int, self.stack@.len() as int)
                    == run_invalid(code, n, old(self).ip as int, old(self).stack@.len() as int),
                k == self.chunk@.constants,
                end_depth(code, n, self.ip as int, self.stack@.len() as int) == end_depth(
                    code,
                    n,
                    old(self).ip as int,
                    old(self).stack@.len() as int,
                ),
                forall|rs: Seq<Value>, ip2: int, st2: Seq<Value>, out: Option<Value>|
                    #[trigger] runs_to(arith, code, k, self.ip as int, self.stack@, rs, ip2, st2, out)
                        ==> runs_to(arith, code, k, old(self).ip as int, old(self).stack@, done + rs, ip2, st2, out),
            decreases code.len() - self.ip,
        {
            let ghost d0 = self.stack@.len() as int;
            let ghost st0 = self.stack@;
            let ghost ip0 = self.ip as int;
            let step = self.step();
            match step {
                Step::Pushed => {
                    proof {
                        assert forall|rs: Seq<Value>, ip2: int, st2: Seq<Value>, out: Option<Value>|
                            #[trigger] runs_to(arith, code, k, self.ip as int, self.stack@, rs, ip2, st2, out)
                                implies runs_to(arith, code, k, old(self).ip as int, old(self).stack@, done + rs, ip2, st2, out) by {
                            assert(runs_to(arith, code, k, ip0, st0, rs, ip2, st2, out));
                        }
                    }
                },
                Step::Binary(op, a, b) => {
                    let v = match op {
                        Opcode::Add => arith.add(a, b),
                        Opcode::Subtract => arith.subtract(a, b),
                        Opcode::Multiply => arith.multiply(a, b),
                        _ => arith.divide(a, b),
                    };
                    self.push(v);
                    proof {
                        assert(computes(arith, op, st0.last(), st0[st0.len() - 2], v));
                        assert forall|rs: Seq<Value>, ip2: int, st2: Seq<Value>, out: Option<Value>|
                            #[trigger] runs_to(arith, code, k, self.ip as int, self.stack@, rs, ip2, st2, out)
                                implies runs_to(arith, code, k, old(self).ip as int, old(self).stack@, done.push(v) + rs, ip2, st2, out) by {
                            let rs2 = seq![v] + rs;
                            assert(rs2[0] == v);
                            assert(rs2.drop_first() =~= rs);
                            assert(st0.drop_last().drop_last().push(v) == self.stack@);
                            assert(runs_to(arith, code, k, ip0, st0, rs2, ip2, st2, out));
                            assert(done.push(v) + rs =~= done + rs2);
                        }
                        done = done.push(v);
                    }
                },
                Step::Negate(a) => {
                    let v = arith.negate(a);
                    self.push(v);
                    proof {
                        assert(computes(arith, Opcode::Negate, st0.last(), 0, v));
                        assert forall|rs: Seq<Value>, ip2: int, st2: Seq<Value>, out: Option<Value>|
                            #[trigger] runs_to(arith, code, k, self.ip as int, self.stack@, rs, ip2, st2, out)
                                implies runs_to(arith, code, k, old(self).ip as int, old(self).stack@, done.push(v) + rs, ip2, st2, out) by {
                            let rs2 = seq![v] + rs;
                            assert(rs2[0] == v);
                            assert(rs2.drop_first() =~= rs);
                            assert(st0.drop_last().push(v) == self.stack@);
                            assert(runs_to(arith, code, k, ip0, st0, rs2, ip2, st2, out));
                            assert(done.push(v) + rs =~= done + rs2);
                        }
                        done = done.push(v);
                    }
                },
                Step::Return(a) => {
                    proof {
                        assert(invalid@ + Seq::<u8>::empty() == invalid@);
                        assert(runs_to(arith, code, k, ip0, st0, Seq::empty(), self.ip as int, self.stack@, Some(a)));
                        assert(done + Seq::<Value>::empty() =~= done);
                    }
                    return (InterpretResult::Success, Some(a), invalid);
                },
                Step::Invalid(b) => {
                    proof {
                        assert(invalid@.push(b) + run_invalid(code, n, self.ip as int, d0) =~= invalid@
                            + (seq![b] + run_invalid(code, n, self.ip as int, d0)));
                    }
                    invalid.push(b);
                    proof {
                        assert forall|rs: Seq<Value>, ip2: int, st2: Seq<Value>, out: Option<Value>|
                            #[trigger] runs_to(arith, code, k, self.ip as int, self.stack@, rs, ip2, st2, out)
                                implies runs_to(arith, code, k, old(self).ip as int, old(self).stack@, done + rs, ip2, st2, out) by {
                            assert(runs_to(arith, code, k, ip0, st0, rs, ip2, st2, out));
                        }
                    }
                },
                Step::Halt => {
                    proof {
                        assert(invalid@ + Seq::<u8>::empty() == invalid@);
                        assert(runs_to(arith, code, k, ip0, st0, Seq::empty(), self.ip as int, self.stack@, None));
                        assert(done + Seq::<Value>::empty() =~= done);
                    }
                    return (InterpretResult::CompileError, None, invalid);
                },
                Step::Fault => {
                    proof {
                        assert(invalid@ + Seq::<u8>::empty() == invalid@);
                        assert(runs_to(arith, code, k, ip0, st0, Seq::empty(), self.ip as int, self.stack@, None));
                        assert(done + Seq::<Value>::empty() =~= done);
                    }
                    return (InterpretResult::RuntimeError, None, invalid);
                },
            }
        }
    }
}

} // verus!
