use vstd::prelude::*;
use vstd::string::StringSliceAdditionalSpecFns;
use crate::chunk::{
    Chunk,
    Opcode,
    Value,
    decode_byte,
    lemma_operands_concat,
    lemma_operands_grow,
    opcode_byte,
    operands_valid,
};
use crate::scanner::{
    Scanned,
    Scanner,
    Token,
    TokenKind,
    lemma_scan_step_progress,
    scan_step,
    skip_ws,
};
use crate::vm::{InterpretResult, STACK_MAX, end_depth, is_binary, run_outcome};

verus! {

/// The first token from `c` on that is not an error token.
pub open spec fn next_real(s: Seq<u8>, c: int, line: int) -> Scanned
    decreases s.len() - c,
    via next_real_decreases
{
    let t = scan_step(s, c, line);
    if c < 0 || c > s.len() || t.kind != TokenKind::Error {
        t
    } else {
        next_real(s, t.end, t.line)
    }
}

#[via_fn]
proof fn next_real_decreases(s: Seq<u8>, c: int, line: int) {
    if 0 <= c <= s.len() {
        lemma_scan_step_progress(s, c, line);
    }
}

proof fn lemma_next_real_bounds(s: Seq<u8>, c: int, line: int)
    requires
        0 <= c <= s.len(),
    ensures
        c <= next_real(s, c, line).start <= next_real(s, c, line).end <= s.len(),
        next_real(s, c, line).kind != TokenKind::Error,
        next_real(s, c, line).kind == TokenKind::Eof ==> next_real(s, c, line).end == s.len(),
        next_real(s, c, line).kind != TokenKind::Eof ==> c < next_real(s, c, line).end,
    decreases s.len() - c,
{
    let t = scan_step(s, c, line);
    lemma_scan_step_progress(s, c, line);
    if t.kind == TokenKind::Error {
        lemma_next_real_bounds(s, t.end, t.line);
    }
}

/// Where a diagnostic points.
#[derive(Clone, Copy)]
pub enum ErrorPlace<'a> {
    /// At the end of the source.
    End,
    /// At a scan error, whose message says it all.
    Scan,
    /// At the lexeme of a token.
    At(&'a [u8]),
}

/// A compile error, as `[line L] Error<place>: message` reports it.
#[derive(Clone, Copy)]
pub struct Diagnostic<'a> {
    pub line: usize,
    pub place: ErrorPlace<'a>,
    pub message: &'a str,
}

/// `d` reports `message` at token `t`.
pub open spec fn reports(d: Diagnostic, t: Token, message: Seq<char>) -> bool {
    &&& d.line == t.line
    &&& d.message@ == message
    &&& if t.kind == TokenKind::Eof {
        d.place is End
    } else if t.kind == TokenKind::Error {
        d.place is Scan
    } else {
        d.place matches ErrorPlace::At(l) && l@ == t.source@.subrange(
            t.start as int,
            t.start + t.length,
        )
    }
}

/// A token whose span lies inside its source.
pub open spec fn in_bounds(t: Token) -> bool {
    t.start + t.length <= t.source@.len()
}

/// The stack depth after running `code` from `ip` on, started at `depth`, when
/// every instruction there is a `CONSTANT` with its operand, `NEGATE` or a
/// binary operation, the stack never runs dry, and it never grows past
/// `STACK_MAX`; `None` otherwise.
pub open spec fn stack_effect(code: Seq<u8>, ip: int, depth: int) -> Option<int>
    decreases code.len() - ip,
{
    if ip < 0 || ip >= code.len() {
        Some(depth)
    } else {
        match decode_byte(code[ip]) {
            Some(Opcode::Constant) => {
                if ip + 1 < code.len() && depth < STACK_MAX {
                    stack_effect(code, ip + 2, depth + 1)
                } else {
                    None
                }
            },
            Some(Opcode::Negate) => {
                if depth >= 1 {
                    stack_effect(code, ip + 1, depth)
                } else {
                    None
                }
            },
            Some(Opcode::Return) => None,
            Some(_) => {
                if depth >= 2 {
                    stack_effect(code, ip + 1, depth - 1)
                } else {
                    None
                }
            },
            None => None,
        }
    }
}

proof fn lemma_effect_shift(a: Seq<u8>, b: Seq<u8>, o: int, d: int)
    requires
        0 <= o <= b.len(),
    ensures
        stack_effect(a + b, a.len() + o, d) == stack_effect(b, o, d),
    decreases b.len() - o,
{
    if o < b.len() {
        assert((a + b)[a.len() + o] == b[o]);
        match decode_byte(b[o]) {
            Some(Opcode::Constant) => {
                if o + 2 <= b.len() {
                    lemma_effect_shift(a, b, o + 2, d + 1);
                }
            },
            Some(Opcode::Negate) => lemma_effect_shift(a, b, o + 1, d),
            Some(Opcode::Return) => {},
            Some(_) => lemma_effect_shift(a, b, o + 1, d - 1),
            None => {},
        }
    }
}

proof fn lemma_effect_concat(a: Seq<u8>, b: Seq<u8>, ip: int, d: int)
    requires
        0 <= ip <= a.len(),
        stack_effect(a, ip, d) is Some,
    ensures
        stack_effect(a + b, ip, d) == stack_effect(b, 0, stack_effect(a, ip, d)->0),
    decreases a.len() - ip,
{
    if ip == a.len() {
        lemma_effect_shift(a, b, 0, d);
    } else {
        assert((a + b)[ip] == a[ip]);
        match decode_byte(a[ip]) {
            Some(Opcode::Constant) => lemma_effect_concat(a, b, ip + 2, d + 1),
            Some(Opcode::Negate) => lemma_effect_concat(a, b, ip + 1, d),
            Some(Opcode::Return) => {},
            Some(_) => lemma_effect_concat(a, b, ip + 1, d - 1),
            None => {},
        }
    }
}

/// Code that an expression compiles to, followed by `RETURN`, runs to a
/// successful `RETURN` on the machine, with exactly one value on the stack
/// there, so that none is left after it.
proof fn lemma_expression_returns(a: Seq<u8>, n: nat, ip: int, d: int)
    requires
        0 <= ip <= a.len(),
        operands_valid(a, n, ip),
        stack_effect(a, ip, d) == Some(1int),
    ensures
        run_outcome(a + seq![opcode_byte(Opcode::Return)], n, ip, d) == InterpretResult::Success,
        end_depth(a + seq![opcode_byte(Opcode::Return)], n, ip, d) == 0,
    decreases a.len() - ip,
{
    let t = a + seq![opcode_byte(Opcode::Return)];
    if ip == a.len() {
        assert(t[ip] == 7);
    } else {
        assert(t[ip] == a[ip]);
        match decode_byte(a[ip]) {
            Some(Opcode::Constant) => {
                assert(t[ip + 1] == a[ip + 1]);
                lemma_expression_returns(a, n, ip + 2, d + 1);
            },
            Some(Opcode::Negate) => lemma_expression_returns(a, n, ip + 1, d),
            Some(Opcode::Return) => {},
            Some(_) => lemma_expression_returns(a, n, ip + 1, d - 1),
            None => {},
        }
    }
}

/// A parser's place in the model of the grammar: the kind of its current
/// token, and where and on which line the scanner stands after it.
pub struct PState {
    pub kind: TokenKind,
    pub c: int,
    pub line: int,
}

/// What a grammar rule produced: its code with the line of each byte, the size of the constant pool
/// after it, and the parser's place after it.
pub struct Parsed {
    pub code: Seq<u8>,
    pub lines: Seq<i32>,
    pub n: nat,
    pub st: PState,
}

/// How much input is left at `st`.
pub open spec fn measure_of(s: Seq<u8>, st: PState) -> int {
    s.len() - st.c + if st.kind == TokenKind::Eof {
        0int
    } else {
        1int
    }
}

/// The parser's place after moving to the next token; `None` where that
/// token is an error.
pub open spec fn step_tok(s: Seq<u8>, st: PState) -> Option<PState> {
    let t = scan_step(s, st.c, st.line);
    if t.kind == TokenKind::Error {
        None
    } else {
        Some(PState { kind: t.kind, c: t.end, line: t.line })
    }
}

/// The place lies inside the source.
pub open spec fn sound(s: Seq<u8>, st: PState) -> bool {
    0 <= st.c <= s.len()
}

/// Moves past the current token, when that lowers the measure.
pub open spec fn next_place(s: Seq<u8>, st: PState) -> Option<PState> {
    match step_tok(s, st) {
        Some(st2) => if sound(s, st2) && measure_of(s, st2) < measure_of(s, st) {
            Some(st2)
        } else {
            None
        },
        None => None,
    }
}

/// expression := term
pub open spec fn g_expression(s: Seq<u8>, st: PState, n: nat) -> Option<Parsed>
    decreases measure_of(s, st), 6int,
{
    if !sound(s, st) {
        None
    } else {
        g_term(s, st, n)
    }
}

/// term := factor (('+' | '-') factor)*
pub open spec fn g_term(s: Seq<u8>, st: PState, n: nat) -> Option<Parsed>
    decreases measure_of(s, st), 5int,
{
    if !sound(s, st) {
        None
    } else {
        match g_factor(s, st, n) {
            Some(p) => if sound(s, p.st) && measure_of(s, p.st) <= measure_of(s, st) {
                g_term_rest(s, p)
            } else {
                None
            },
            None => None,
        }
    }
}

/// The `(('+' | '-') factor)*` of a term whose first part is `left`.
pub open spec fn g_term_rest(s: Seq<u8>, left: Parsed) -> Option<Parsed>
    decreases measure_of(s, left.st), 4int,
{
    let st = left.st;
    if !sound(s, st) {
        None
    } else if st.kind == TokenKind::Plus || st.kind == TokenKind::Minus {
        let op: u8 = if st.kind == TokenKind::Plus {
            2
        } else {
            3
        };
        match next_place(s, st) {
            Some(st2) => match g_factor(s, st2, left.n) {
                Some(p) => if sound(s, p.st) && measure_of(s, p.st) <= measure_of(s, st2) {
                    g_term_rest(
                        s,
                        Parsed {
                            code: p.code + left.code + seq![op],
                            lines: p.lines + left.lines + seq![st.line as i32],
                            n: p.n,
                            st: p.st,
                        },
                    )
                } else {
                    None
                },
                None => None,
            },
            None => None,
        }
    } else {
        Some(left)
    }
}

/// factor := unary (('*' | '/') unary)*
pub open spec fn g_factor(s: Seq<u8>, st: PState, n: nat) -> Option<Parsed>
    decreases measure_of(s, st), 3int,
{
    if !sound(s, st) {
        None
    } else {
        match g_unary(s, st, n) {
            Some(p) => if sound(s, p.st) && measure_of(s, p.st) <= measure_of(s, st) {
                g_factor_rest(s, p)
            } else {
                None
            },
            None => None,
        }
    }
}

/// The `(('*' | '/') unary)*` of a factor whose first part is `left`.
pub open spec fn g_factor_rest(s: Seq<u8>, left: Parsed) -> Option<Parsed>
    decreases measure_of(s, left.st), 2int,
{
    let st = left.st;
    if !sound(s, st) {
        None
    } else if st.kind == TokenKind::Star || st.kind == TokenKind::Slash {
        let op: u8 = if st.kind == TokenKind::Star {
            4
        } else {
            5
        };
        match next_place(s, st) {
            Some(st2) => match g_unary(s, st2, left.n) {
                Some(p) => if sound(s, p.st) && measure_of(s, p.st) <= measure_of(s, st2) {
                    g_factor_rest(
                        s,
                        Parsed {
                            code: p.code + left.code + seq![op],
                            lines: p.lines + left.lines + seq![st.line as i32],
                            n: p.n,
                            st: p.st,
                        },
                    )
                } else {
                    None
                },
                None => None,
            },
            None => None,
        }
    } else {
        Some(left)
    }
}

/// unary := '-' unary | primary
pub open spec fn g_unary(s: Seq<u8>, st: PState, n: nat) -> Option<Parsed>
    decreases measure_of(s, st), 1int,
{
    if !sound(s, st) {
        None
    } else if st.kind == TokenKind::Minus {
        match next_place(s, st) {
            Some(st2) => match g_unary(s, st2, n) {
                Some(p) => Some(
                    Parsed {
                        code: p.code.push(6),
                        lines: p.lines.push(st.line as i32),
                        n: p.n,
                        st: p.st,
                    },
                ),
                None => None,
            },
            None => None,
        }
    } else {
        g_primary(s, st, n)
    }
}

/// primary := NUMBER | '(' expression ')'. A number becomes the next constant,
/// while the pool has room for it.
pub open spec fn g_primary(s: Seq<u8>, st: PState, n: nat) -> Option<Parsed>
    decreases measure_of(s, st), 0int,
{
    if !sound(s, st) {
        None
    } else if st.kind == TokenKind::Number {
        match next_place(s, st) {
            Some(st2) => if n < 256 {
                Some(
                    Parsed {
                        code: seq![1u8, n as u8],
                        lines: seq![st.line as i32, st.line as i32],
                        n: n + 1,
                        st: st2,
                    },
                )
            } else {
                None
            },
            None => None,
        }
    } else if st.kind == TokenKind::LeftParen {
        match next_place(s, st) {
            Some(st2) => match g_expression(s, st2, n) {
                Some(p) => if p.st.kind == TokenKind::RightParen {
                    match step_tok(s, p.st) {
                        Some(st3) => Some(Parsed { code: p.code, lines: p.lines, n: p.n, st: st3 }),
                        None => None,
                    }
                } else {
                    None
                },
                None => None,
            },
            None => None,
        }
    } else {
        None
    }
}

/// What a source compiles to: the code of one expression followed by
/// `RETURN`, the line of each byte, and the number of constants; `None` when the source is not one
/// expression, holds a scan error, or needs more than 256 constants.
pub open spec fn compiled(s: Seq<u8>) -> Option<(Seq<u8>, Seq<i32>, nat)> {
    match step_tok(s, PState { kind: TokenKind::Eof, c: 0, line: 1 }) {
        Some(st) => match g_expression(s, st, 0) {
            Some(p) => if p.st.kind == TokenKind::Eof {
                Some((p.code.push(7), p.lines.push(p.st.line as i32), p.n))
            } else {
                None
            },
            None => None,
        },
        None => None,
    }
}

/// `v` is a value that `numbers` returned for the bytes `lexeme`.
pub open spec fn reads<N: Numbers>(numbers: &N, lexeme: Seq<u8>, v: Value) -> bool {
    exists|l: &[u8]| l@ == lexeme && #[trigger] call_ensures(N::number, (numbers, l), v)
}

/// `v` is a value that `numbers` returned for some run of bytes of `s`.
pub open spec fn read_from<N: Numbers>(numbers: &N, s: Seq<u8>, v: Value) -> bool {
    exists|a: int, b: int| 0 <= a <= b <= s.len() && #[trigger] reads(numbers, s.subrange(a, b), v)
}

/// Every constant from `from` on is a value `numbers` returned for some run
/// of bytes of `s`.
pub open spec fn constants_read<N: Numbers>(numbers: &N, s: Seq<u8>, k: Seq<Value>, from: int) -> bool {
    forall|i: int| from <= i < k.len() ==> #[trigger] read_from(numbers, s, k[i])
}

/// Turns the lexeme of a number into a value; the library leaves this to its
/// user, as it leaves the arithmetic.
pub trait Numbers {
    fn number(&self, lexeme: &[u8]) -> Value;
}

/// Bytecode that a parse rule produced: its code and the line of each byte.
pub struct Fragment {
    pub code: Vec<u8>,
    pub lines: Vec<i32>,
}

impl Fragment {
    /// One line per byte, and complete code over `n` constants.
    pub open spec fn valid(self, n: nat) -> bool {
        &&& self.lines@.len() == self.code@.len()
        &&& operands_valid(self.code@, n, 0)
    }

    /// The code leaves exactly one more value on the stack, from any start
    /// depth that leaves room for `k` more values.
    pub open spec fn balanced(self, k: int) -> bool {
        forall|d: int|
            0 <= d && d + k <= STACK_MAX ==> #[trigger] stack_effect(
                self.code@,
                0,
                d,
            ) == Some(d + 1)
    }

    pub proof fn lemma_grow(self, m: nat)
        requires
            exists|n: nat| n <= m && #[trigger] self.valid(n),
        ensures
            self.valid(m),
    {
        let n = choose|n: nat| n <= m && #[trigger] self.valid(n);
        lemma_operands_grow(self.code@, n, m, 0);
    }

    /// No code.
    pub fn empty() -> (r: Fragment)
        ensures
            r.code@.len() == 0,
            forall|n: nat| #[trigger] r.valid(n),
    {
        Fragment { code: Vec::new(), lines: Vec::new() }
    }

    /// `CONSTANT index`, both bytes on `line`.
    fn constant(index: u8, line: i32, n: Ghost<nat>) -> (r: Fragment)
        requires
            index < n@,
        ensures
            r.code@ == seq![opcode_byte(Opcode::Constant), index],
            r.lines@ == seq![line, line],
            r.valid(n@),
            r.balanced(1),
    {
        let mut code: Vec<u8> = Vec::new();
        let mut lines: Vec<i32> = Vec::new();
        code.push(Opcode::Constant.as_byte());
        code.push(index);
        lines.push(line);
        lines.push(line);
        proof {
            assert(operands_valid(code@, n@, 2));
            assert forall|d: int| 0 <= d && d + 1 <= STACK_MAX implies #[trigger] stack_effect(
                code@,
                0,
                d,
            ) == Some(d + 1) by {
                assert(stack_effect(code@, 2, d + 1) == Some(d + 1));
            }
        }
        Fragment { code, lines }
    }

    /// Appends a one-byte instruction on `line`.
    fn push_instruction(&mut self, op: Opcode, line: i32, n: Ghost<nat>, k: Ghost<int>)
        requires
            old(self).valid(n@),
            op != Opcode::Constant,
        ensures
            final(self).code@ == old(self).code@.push(opcode_byte(op)),
            final(self).lines@ == old(self).lines@.push(line),
            final(self).valid(n@),
            old(self).balanced(k@) && op == Opcode::Negate ==> final(self).balanced(k@),
    {
        proof {
            let one = seq![opcode_byte(op)];
            assert(operands_valid(one, n@, 1));
            lemma_operands_concat(self.code@, one, n@);
            assert(self.code@ + one =~= self.code@.push(opcode_byte(op)));
            if self.balanced(k@) && op == Opcode::Negate {
                let code = self.code@;
                assert forall|d: int|
                    0 <= d && d + k@ <= STACK_MAX implies #[trigger] stack_effect(
                    code + one,
                    0,
                    d,
                ) == Some(d + 1) by {
                    assert(stack_effect(code, 0, d) == Some(d + 1));
                    lemma_effect_concat(code, one, 0, d);
                    assert(stack_effect(one, 1, d + 1) == Some(d + 1));
                }
            }
        }
        self.code.push(op.as_byte());
        self.lines.push(line);
    }

    /// Appends all of `other`.
    fn append(&mut self, other: &Fragment, n: Ghost<nat>)
        requires
            old(self).valid(n@),
            other.valid(n@),
        ensures
            final(self).code@ == old(self).code@ + other.code@,
            final(self).lines@ == old(self).lines@ + other.lines@,
            final(self).valid(n@),
    {
        let ghost start = self.code@;
        let ghost start_lines = self.lines@;
        let mut i: usize = 0;
        while i < other.code.len()
            invariant
                0 <= i <= other.code@.len(),
                other.lines@.len() == other.code@.len(),
                self.code@ == start + other.code@.subrange(0, i as int),
                self.lines@ == start_lines + other.lines@.subrange(0, i as int),
                self.lines@.len() == self.code@.len(),
            decreases other.code@.len() - i,
        {
            self.code.push(other.code[i]);
            self.lines.push(other.lines[i]);
            proof {
                assert(other.code@.subrange(0, i + 1) =~= other.code@.subrange(0, i as int).push(
                    other.code@[i as int],
                ));
                assert(other.lines@.subrange(0, i + 1) =~= other.lines@.subrange(0, i as int).push(
                    other.lines@[i as int],
                ));
            }
            i = i + 1;
        }
        proof {
            assert(other.code@.subrange(0, i as int) =~= other.code@);
            assert(other.lines@.subrange(0, i as int) =~= other.lines@);
            lemma_operands_concat(start, other.code@, n@);
        }
    }

    /// The code of a binary operation whose result is `left OP right`: the
    /// machine pops its first operand from the top, so `right` runs first and
    /// `left` second.
    fn binary(
        left: Fragment,
        right: Fragment,
        op: Opcode,
        line: i32,
        n: Ghost<nat>,
        kl: Ghost<int>,
        kr: Ghost<int>,
    ) -> (r: Fragment)
        requires
            left.valid(n@),
            right.valid(n@),
            is_binary(op),
        ensures
            r.code@ == right.code@ + left.code@ + seq![opcode_byte(op)],
            r.lines@ == right.lines@ + left.lines@ + seq![line],
            r.valid(n@),
            left.balanced(kl@) && right.balanced(kr@) && kl@ >= 0 && kr@ >= 1 ==> r.balanced(
                kl@ + kr@,
            ),
    {
        let ghost lc = left.code@;
        let ghost rc = right.code@;
        let ghost balanced = left.balanced(kl@) && right.balanced(kr@) && kl@ >= 0 && kr@ >= 1;
        let mut r = right;
        r.append(&left, n);
        r.push_instruction(op, line, n, Ghost(0));
        proof {
            let one = seq![opcode_byte(op)];
            assert(r.code@ =~= rc + lc + one);
            assert(rc + lc + one =~= rc + (lc + one));
            if balanced {
                assert forall|d: int|
                    0 <= d && d + kl@ + kr@ <= STACK_MAX implies #[trigger] stack_effect(
                    r.code@,
                    0,
                    d,
                ) == Some(d + 1) by {
                    assert(stack_effect(rc, 0, d) == Some(d + 1));
                    if rc.len() == 0 {
                        assert(stack_effect(rc, 0, d) == Some(d));
                    }
                    lemma_effect_concat(rc, lc + one, 0, d);
                    assert(stack_effect(lc, 0, d + 1) == Some(d + 2));
                    lemma_effect_concat(lc, one, 0, d + 1);
                    assert(stack_effect(one, 1, d + 1) == Some(d + 1));
                }
            }
        }
        r
    }
}

/// Consumes the tokens of a source one at a time and records compile errors.
pub struct Parser<'a> {
    pub scanner: Scanner<'a>,
    pub current: Token<'a>,
    pub previous: Token<'a>,
    pub had_error: bool,
    /// Set by the first error; suppresses further reports.
    pub panic: bool,
    pub diagnostics: Vec<Diagnostic<'a>>,
}

impl<'a> Parser<'a> {
    pub open spec fn wf(self) -> bool {
        &&& self.scanner.wf()
        &&& in_bounds(self.current)
        &&& in_bounds(self.previous)
        &&& self.panic == self.had_error
        &&& self.panic ==> self.diagnostics@.len() > 0
    }

    /// A parser before its first token.
    pub fn new(source: &'a str) -> (r: Self)
        requires
            source.spec_bytes().len() < usize::MAX,
        ensures
            r.wf(),
            r.scanner.text() == source.spec_bytes(),
            r.scanner.current == 0,
            r.scanner.line == 1,
            r.current.kind == TokenKind::Eof,
            !r.had_error,
            !r.panic,
            r.diagnostics@.len() == 0,
    {
        Parser {
            scanner: Scanner::new(source),
            current: Token::dummy(),
            previous: Token::dummy(),
            had_error: false,
            panic: false,
            diagnostics: Vec::new(),
        }
    }

    /// Moves to the next token that is not an error token, reporting the
    /// error tokens passed on the way.
    pub fn advance(&mut self)
        requires
            old(self).wf(),
        ensures
            final(self).wf(),
            final(self).previous == old(self).current,
            final(self).scanner.source == old(self).scanner.source,
            final(self).current.source == old(self).scanner.source,
            final(self).measure() <= old(self).scanner.source@.len() - old(self).scanner.current,
            final(self).settled(),
            final(self).synced(),
            ({
                let s = old(self).scanner.text();
                let c = old(self).scanner.current as int;
                let l = old(self).scanner.line as int;
                let t = next_real(s, c, l);
                let e = scan_step(s, c, l);
                &&& final(self).current.is_scanned(t)
                &&& final(self).scanner.current == t.end
                &&& final(self).scanner.line == t.line
                &&& if e.kind == TokenKind::Error {
                    &&& final(self).had_error
                    &&& final(self).panic
                    &&& if old(self).panic {
                        final(self).diagnostics@ == old(self).diagnostics@
                    } else {
                        &&& final(self).diagnostics@.len() == old(self).diagnostics@.len() + 1
                        &&& final(self).diagnostics@.drop_last() == old(self).diagnostics@
                        &&& final(self).diagnostics@.last().line == e.line
                        &&& final(self).diagnostics@.last().place is Scan
                        &&& final(self).diagnostics@.last().message@ == e.message
                    }
                } else {
                    &&& final(self).had_error == old(self).had_error
                    &&& final(self).panic == old(self).panic
                    &&& final(self).diagnostics@ == old(self).diagnostics@
                }
            }),
    {
        self.previous = self.current;
        let ghost s = self.scanner.source@;
        let ghost first = scan_step(s, self.scanner.current as int, self.scanner.line as int);
        let ghost target = next_real(s, self.scanner.current as int, self.scanner.line as int);
        let ghost first_panic = self.panic;
        let ghost first_diags = self.diagnostics@;
        let ghost first_error = self.had_error;
        proof {
            lemma_scan_step_progress(s, self.scanner.current as int, self.scanner.line as int);
            lemma_next_real_bounds(s, self.scanner.current as int, self.scanner.line as int);
        }
        let mut seen: bool = false;
        loop
            invariant
                self.wf(),
                self.scanner.source@ == s,
                self.scanner.source == old(self).scanner.source,
                self.previous == old(self).current,
                next_real(s, self.scanner.current as int, self.scanner.line as int) == target,
                !seen ==> self.scanner.current == old(self).scanner.current,
                !seen ==> self.scanner.line == old(self).scanner.line,
                !seen ==> self.had_error == first_error && self.panic == first_panic
                    && self.diagnostics@ == first_diags,
                seen ==> first.kind == TokenKind::Error && self.had_error && self.panic,
                seen && first_panic ==> self.diagnostics@ == first_diags,
                seen && !first_panic ==> {
                    &&& self.diagnostics@.len() == first_diags.len() + 1
                    &&& self.diagnostics@.drop_last() == first_diags
                    &&& self.diagnostics@.last().line == first.line
                    &&& self.diagnostics@.last().place is Scan
                    &&& self.diagnostics@.last().message@ == first.message
                },
                first == scan_step(s, old(self).scanner.current as int, old(self).scanner.line as int),
                target == next_real(s, old(self).scanner.current as int, old(self).scanner.line as int),
                first_panic == old(self).panic,
                first_diags == old(self).diagnostics@,
                first_error == old(self).had_error,
                target.kind != TokenKind::Eof ==> old(self).scanner.current < target.end,
                target.end <= s.len(),
            decreases s.len() - self.scanner.current,
        {
            let ghost before = self.scanner.current as int;
            let ghost before_line = self.scanner.line as int;
            proof {
                lemma_scan_step_progress(s, before, before_line);
            }
            self.current = self.scanner.scan_token();
            if self.current.kind != TokenKind::Error {
                return;
            }
            let message = self.current.message;
            self.report_error_at_current(message);
            seen = true;
        }
    }

    /// How much input is left: the bytes after the scanner, and one more
    /// while the current token is not `Eof`. Every rule that recurses first
    /// moves past a token, which lowers it.
    pub open spec fn measure(self) -> int {
        self.scanner.source@.len() - self.scanner.current + if self.current.kind
            == TokenKind::Eof {
            0int
        } else {
            1int
        }
    }

    /// A current `Eof` token was read at the end of the source.
    pub open spec fn settled(self) -> bool {
        self.current.kind == TokenKind::Eof ==> self.scanner.current == self.scanner.source@.len()
    }

    /// The current token ends where the scanner stands, on the scanner's
    /// line, in the scanner's source.
    pub open spec fn synced(self) -> bool {
        &&& self.current.line == self.scanner.line
        &&& self.current.start + self.current.length == self.scanner.current
        &&& self.current.source == self.scanner.source
    }

    /// The parser's place in the model of the grammar.
    pub open spec fn place(self) -> PState {
        PState {
            kind: self.current.kind,
            c: self.scanner.current as int,
            line: self.scanner.line as int,
        }
    }

    /// A parse rule did what the model's rule `g` says: it fails exactly where
    /// `g` does, and otherwise yields `g`'s code, pool size and place.
    pub open spec fn follows(
        g: Option<Parsed>,
        old_p: Parser<'a>,
        new_p: Parser<'a>,
        new_c: Chunk,
        f: Fragment,
    ) -> bool {
        &&& (!old_p.had_error ==> (new_p.had_error <==> g is None))
        &&& (!new_p.had_error ==> g == Some(
            Parsed {
                code: f.code@,
                lines: f.lines@,
                n: new_c@.constants.len(),
                st: new_p.place(),
            },
        ))
    }

    /// The parse rules' common promise: the parser stays well formed, input is
    /// only consumed, the chunk only gains constants, and the fragment is
    /// complete code over the chunk's constants.
    pub open spec fn rule_ensures(
        old_p: Parser<'a>,
        new_p: Parser<'a>,
        old_c: Chunk,
        new_c: Chunk,
        f: Fragment,
    ) -> bool {
        &&& new_p.wf()
        &&& new_p.scanner.source == old_p.scanner.source
        &&& new_p.measure() <= old_p.measure()
        &&& (old_p.settled() ==> new_p.settled())
        &&& new_p.synced()
        &&& (!new_p.panic ==> new_p.diagnostics@ == old_p.diagnostics@)
        &&& (old_p.had_error ==> new_p.had_error)
        &&& new_c.wf()
        &&& new_c@.code == old_c@.code
        &&& new_c@.lines == old_c@.lines
        &&& old_c@.constants.len() <= new_c@.constants.len()
        &&& (old_c@.constants.len() <= 256 ==> new_c@.constants.len() <= 256)
        &&& f.valid(new_c@.constants.len())
        &&& (!new_p.had_error ==> f.balanced(new_c@.constants.len() - old_c@.constants.len()))
        &&& (!new_p.had_error ==> old_c@.constants.len() < new_c@.constants.len())
    }

    /// expression := term
    pub fn expression<N: Numbers>(&mut self, chunk: &mut Chunk, numbers: &N) -> (r: Fragment)
        requires
            old(self).wf(),
            old(self).synced(),
            old(chunk).wf(),
        ensures
            Self::rule_ensures(*old(self), *final(self), *old(chunk), *final(chunk), r),
            Self::follows(
                g_expression(old(self).scanner.source@, old(self).place(), old(chunk)@.constants.len()),
                *old(self),
                *final(self),
                *final(chunk),
                r,
            ),
            constants_read(numbers, old(self).scanner.source@, old(chunk)@.constants, 0)
                ==> constants_read(numbers, old(self).scanner.source@, final(chunk)@.constants, 0),
        decreases old(self).measure(), 4int,
    {
        self.term(chunk, numbers)
    }

    /// term := factor (('+' | '-') factor)*
    pub fn term<N: Numbers>(&mut self, chunk: &mut Chunk, numbers: &N) -> (r: Fragment)
        requires
            old(self).wf(),
            old(self).synced(),
            old(chunk).wf(),
        ensures
            Self::rule_ensures(*old(self), *final(self), *old(chunk), *final(chunk), r),
            Self::follows(
                g_term(old(self).scanner.source@, old(self).place(), old(chunk)@.constants.len()),
                *old(self),
                *final(self),
                *final(chunk),
                r,
            ),
            constants_read(numbers, old(self).scanner.source@, old(chunk)@.constants, 0)
                ==> constants_read(numbers, old(self).scanner.source@, final(chunk)@.constants, 0),
        decreases old(self).measure(), 3int,
    {
        let ghost s = self.scanner.source@;
        let ghost whole = g_term(s, self.place(), chunk@.constants.len());
        let mut left = self.factor(chunk, numbers);
        while self.current.kind == TokenKind::Plus || self.current.kind == TokenKind::Minus
            invariant
                Self::rule_ensures(*old(self), *self, *old(chunk), *chunk, left),
                s == old(self).scanner.source@,
                whole == g_term(s, old(self).place(), old(chunk)@.constants.len()),
                !old(self).had_error && self.had_error ==> whole is None,
                constants_read(numbers, s, old(chunk)@.constants, 0) ==> constants_read(
                    numbers,
                    s,
                    chunk@.constants,
                    0,
                ),
                !self.had_error ==> whole == g_term_rest(
                    s,
                    Parsed {
                        code: left.code@,
                        lines: left.lines@,
                        n: chunk@.constants.len(),
                        st: self.place(),
                    },
                ),
            decreases self.measure(),
        {
            let op = if self.current.kind == TokenKind::Plus {
                Opcode::Add
            } else {
                Opcode::Subtract
            };
            self.advance();
            let line = self.previous.line as i32;
            let ghost n_here = chunk@.constants.len();
            let right = self.factor(chunk, numbers);
            proof {
                left.lemma_grow(chunk@.constants.len());
            }
            left = Fragment::binary(
                left,
                right,
                op,
                line,
                Ghost(chunk@.constants.len()),
                Ghost(n_here - old(chunk)@.constants.len()),
                Ghost(chunk@.constants.len() - n_here),
            );
        }
        left
    }

    /// factor := unary (('*' | '/') unary)*
    pub fn factor<N: Numbers>(&mut self, chunk: &mut Chunk, numbers: &N) -> (r: Fragment)
        requires
            old(self).wf(),
            old(self).synced(),
            old(chunk).wf(),
        ensures
            Self::rule_ensures(*old(self), *final(self), *old(chunk), *final(chunk), r),
            Self::follows(
                g_factor(old(self).scanner.source@, old(self).place(), old(chunk)@.constants.len()),
                *old(self),
                *final(self),
                *final(chunk),
                r,
            ),
            constants_read(numbers, old(self).scanner.source@, old(chunk)@.constants, 0)
                ==> constants_read(numbers, old(self).scanner.source@, final(chunk)@.constants, 0),
        decreases old(self).measure(), 2int,
    {
        let ghost s = self.scanner.source@;
        let ghost whole = g_factor(s, self.place(), chunk@.constants.len());
        let mut left = self.unary(chunk, numbers);
        while self.current.kind == TokenKind::Star || self.current.kind == TokenKind::Slash
            invariant
                Self::rule_ensures(*old(self), *self, *old(chunk), *chunk, left),
                s == old(self).scanner.source@,
                whole == g_factor(s, old(self).place(), old(chunk)@.constants.len()),
                !old(self).had_error && self.had_error ==> whole is None,
                constants_read(numbers, s, old(chunk)@.constants, 0) ==> constants_read(
                    numbers,
                    s,
                    chunk@.constants,
                    0,
                ),
                !self.had_error ==> whole == g_factor_rest(
                    s,
                    Parsed {
                        code: left.code@,
                        lines: left.lines@,
                        n: chunk@.constants.len(),
                        st: self.place(),
                    },
                ),
            decreases self.measure(),
        {
            let op = if self.current.kind == TokenKind::Star {
                Opcode::Multiply
            } else {
                Opcode::Divide
            };
            self.advance();
            let line = self.previous.line as i32;
            let ghost n_here = chunk@.constants.len();
            let right = self.unary(chunk, numbers);
            proof {
                left.lemma_grow(chunk@.constants.len());
            }
            left = Fragment::binary(
                left,
                right,
                op,
                line,
                Ghost(chunk@.constants.len()),
                Ghost(n_here - old(chunk)@.constants.len()),
                Ghost(chunk@.constants.len() - n_here),
            );
        }
        left
    }

    /// unary := '-' unary | primary
    pub fn unary<N: Numbers>(&mut self, chunk: &mut Chunk, numbers: &N) -> (r: Fragment)
        requires
            old(self).wf(),
            old(self).synced(),
            old(chunk).wf(),
        ensures
            Self::rule_ensures(*old(self), *final(self), *old(chunk), *final(chunk), r),
            Self::follows(
                g_unary(old(self).scanner.source@, old(self).place(), old(chunk)@.constants.len()),
                *old(self),
                *final(self),
                *final(chunk),
                r,
            ),
            constants_read(numbers, old(self).scanner.source@, old(chunk)@.constants, 0)
                ==> constants_read(numbers, old(self).scanner.source@, final(chunk)@.constants, 0),
        decreases old(self).measure(), 1int,
    {
        if self.current.kind == TokenKind::Minus {
            self.advance();
            let line = self.previous.line as i32;
            let mut operand = self.unary(chunk, numbers);
            operand.push_instruction(
                Opcode::Negate,
                line,
                Ghost(chunk@.constants.len()),
                Ghost(chunk@.constants.len() - old(chunk)@.constants.len()),
            );
            operand
        } else {
            self.primary(chunk, numbers)
        }
    }

    /// primary := NUMBER | '(' expression ')'
    pub fn primary<N: Numbers>(&mut self, chunk: &mut Chunk, numbers: &N) -> (r: Fragment)
        requires
            old(self).wf(),
            old(self).synced(),
            old(chunk).wf(),
        ensures
            Self::rule_ensures(*old(self), *final(self), *old(chunk), *final(chunk), r),
            Self::follows(
                g_primary(old(self).scanner.source@, old(self).place(), old(chunk)@.constants.len()),
                *old(self),
                *final(self),
                *final(chunk),
                r,
            ),
            constants_read(numbers, old(self).scanner.source@, old(chunk)@.constants, 0)
                ==> constants_read(numbers, old(self).scanner.source@, final(chunk)@.constants, 0),
            old(self).current.kind == TokenKind::Number && !final(self).had_error ==> {
                &&& final(chunk)@.constants.len() == old(chunk)@.constants.len() + 1
                &&& reads(
                    numbers,
                    old(self).scanner.source@.subrange(
                        old(self).current.start as int,
                        old(self).scanner.current as int,
                    ),
                    final(chunk)@.constants.last(),
                )
            },
        decreases old(self).measure(), 0int,
    {
        if self.current.kind == TokenKind::Number {
            self.advance();
            let lexeme = self.previous.lexeme();
            let value = numbers.number(lexeme);
            let line = self.previous.line as i32;
            if chunk.constants().len() >= 256 {
                self.report_error("Too many constants in one chunk.");
                return Fragment::empty();
            }
            let ghost k0 = chunk@.constants;
            let index = chunk.add_constant(value);
            proof {
                let src = old(self).scanner.source@;
                let a = old(self).current.start as int;
                let b = old(self).scanner.current as int;
                assert(lexeme@ == src.subrange(a, b));
                assert(reads(numbers, src.subrange(a, b), value));
                assert(read_from(numbers, src, value));
                if constants_read(numbers, src, k0, 0) {
                    assert forall|i: int| 0 <= i < chunk@.constants.len() implies #[trigger] read_from(
                        numbers,
                        src,
                        chunk@.constants[i],
                    ) by {
                        if i < k0.len() {
                            assert(chunk@.constants[i] == k0[i]);
                        }
                    }
                }
            }
            Fragment::constant(index, line, Ghost(chunk@.constants.len()))
        } else if self.current.kind == TokenKind::LeftParen {
            self.advance();
            let inner = self.expression(chunk, numbers);
            self.consume(TokenKind::RightParen, "Expect ')' after expression.");
            inner
        } else {
            self.report_error_at_current("Expect expression.");
            Fragment::empty()
        }
    }

    /// Moves past the current token when it has the given kind; otherwise
    /// reports `message` at it.
    pub fn consume(&mut self, kind: TokenKind, message: &'a str)
        requires
            old(self).wf(),
        ensures
            final(self).wf(),
            final(self).scanner.source == old(self).scanner.source,
            final(self).measure() <= old(self).measure(),
            old(self).settled() ==> final(self).settled(),
            old(self).synced() ==> final(self).synced(),
            !final(self).panic ==> final(self).diagnostics@ == old(self).diagnostics@,
            old(self).current.kind != kind ==> {
                &&& final(self).scanner == old(self).scanner
                &&& final(self).current == old(self).current
                &&& final(self).previous == old(self).previous
                &&& final(self).had_error == (old(self).had_error || !old(self).panic)
                &&& final(self).panic
                &&& final(self).diagnostics@ == if old(self).panic {
                    old(self).diagnostics@
                } else {
                    old(self).diagnostics@.push(final(self).diagnostics@.last())
                }
                &&& !old(self).panic ==> reports(
                    final(self).diagnostics@.last(),
                    old(self).current,
                    message@,
                )
            },
            old(self).current.kind == kind ==> {
                let s = old(self).scanner.text();
                let c = old(self).scanner.current as int;
                let l = old(self).scanner.line as int;
                &&& final(self).previous == old(self).current
                &&& final(self).current.is_scanned(next_real(s, c, l))
                &&& final(self).current.source == old(self).scanner.source
                &&& final(self).scanner.current == next_real(s, c, l).end
                &&& final(self).scanner.line == next_real(s, c, l).line
                &&& scan_step(s, c, l).kind != TokenKind::Error ==> {
                    &&& final(self).had_error == old(self).had_error
                    &&& final(self).panic == old(self).panic
                    &&& final(self).diagnostics@ == old(self).diagnostics@
                }
                &&& scan_step(s, c, l).kind == TokenKind::Error ==> {
                    &&& final(self).had_error
                    &&& final(self).panic
                    &&& if old(self).panic {
                        final(self).diagnostics@ == old(self).diagnostics@
                    } else {
                        &&& final(self).diagnostics@.len() == old(self).diagnostics@.len() + 1
                        &&& final(self).diagnostics@.drop_last() == old(self).diagnostics@
                        &&& final(self).diagnostics@.last().line == scan_step(s, c, l).line
                        &&& final(self).diagnostics@.last().place is Scan
                        &&& final(self).diagnostics@.last().message@ == scan_step(s, c, l).message
                    }
                }
            },
    {
        if self.current.kind == kind {
            self.advance();
        } else {
            self.report_error_at_current(message);
        }
    }

    /// Records `message` at `token`, unless an earlier error already did so.
    pub fn report_error_at(&mut self, token: Token<'a>, message: &'a str)
        requires
            old(self).wf(),
            in_bounds(token),
        ensures
            final(self).wf(),
            final(self).scanner == old(self).scanner,
            final(self).current == old(self).current,
            final(self).previous == old(self).previous,
            final(self).panic,
            final(self).had_error == (old(self).had_error || !old(self).panic),
            old(self).panic ==> final(self).diagnostics@ == old(self).diagnostics@,
            !old(self).panic ==> {
                &&& final(self).diagnostics@.len() == old(self).diagnostics@.len() + 1
                &&& final(self).diagnostics@.drop_last() == old(self).diagnostics@
                &&& reports(final(self).diagnostics@.last(), token, message@)
            },
    {
        if self.panic {
            return;
        }
        self.panic = true;
        let place = if token.kind == TokenKind::Eof {
            ErrorPlace::End
        } else if token.kind == TokenKind::Error {
            ErrorPlace::Scan
        } else {
            ErrorPlace::At(token.lexeme())
        };
        self.diagnostics.push(Diagnostic { line: token.line, place, message });
        proof {
            assert(self.diagnostics@.drop_last() =~= old(self).diagnostics@);
        }
        self.had_error = true;
    }

    /// Records `message` at the current token.
    pub fn report_error_at_current(&mut self, message: &'a str)
        requires
            old(self).wf(),
        ensures
            final(self).wf(),
            final(self).scanner == old(self).scanner,
            final(self).current == old(self).current,
            final(self).previous == old(self).previous,
            final(self).panic,
            final(self).had_error == (old(self).had_error || !old(self).panic),
            old(self).panic ==> final(self).diagnostics@ == old(self).diagnostics@,
            !old(self).panic ==> {
                &&& final(self).diagnostics@.len() == old(self).diagnostics@.len() + 1
                &&& final(self).diagnostics@.drop_last() == old(self).diagnostics@
                &&& reports(final(self).diagnostics@.last(), old(self).current, message@)
            },
    {
        let token = self.current;
        self.report_error_at(token, message);
    }

    /// Records `message` at the previous token.
    pub fn report_error(&mut self, message: &'a str)
        requires
            old(self).wf(),
        ensures
            final(self).wf(),
            final(self).scanner == old(self).scanner,
            final(self).current == old(self).current,
            final(self).previous == old(self).previous,
            final(self).panic,
            final(self).had_error == (old(self).had_error || !old(self).panic),
            old(self).panic ==> final(self).diagnostics@ == old(self).diagnostics@,
            !old(self).panic ==> {
                &&& final(self).diagnostics@.len() == old(self).diagnostics@.len() + 1
                &&& final(self).diagnostics@.drop_last() == old(self).diagnostics@
                &&& reports(final(self).diagnostics@.last(), old(self).previous, message@)
            },
    {
        let token = self.previous;
        self.report_error_at(token, message);
    }
}

/// Compiles one source into a chunk.
pub struct Compiler<'a> {
    pub parser: Parser<'a>,
    pub chunk: Chunk,
}

impl<'a> Compiler<'a> {
    pub open spec fn wf(self) -> bool {
        self.parser.wf() && self.chunk.wf()
    }

    /// A compiler at the start of `source`, with an empty chunk.
    pub fn new(source: &'a str) -> (r: Self)
        requires
            source.spec_bytes().len() < usize::MAX,
        ensures
            r.wf(),
            r.parser.scanner.text() == source.spec_bytes(),
            r.parser.scanner.current == 0,
            r.parser.scanner.line == 1,
            !r.parser.had_error,
            !r.parser.panic,
            r.parser.diagnostics@.len() == 0,
            r.chunk@.code.len() == 0,
            r.chunk@.constants.len() == 0,
    {
        Compiler { parser: Parser::new(source), chunk: Chunk::new() }
    }

    /// Compiles the source: one expression, then the end of the source. On
    /// success the chunk, ended by `RETURN`, is handed out; after any error,
    /// nothing is, and the parser's diagnostics say why.
    #[verifier::rlimit(100)]
    pub fn compile<N: Numbers>(&mut self, numbers: &N) -> (r: Option<Chunk>)
        requires
            old(self).wf(),
            old(self).chunk@.code.len() == 0,
            old(self).chunk@.constants.len() == 0,
        ensures
            final(self).parser.wf(),
            r is Some <==> !final(self).parser.had_error,
            r is Some ==> final(self).parser.diagnostics@ == old(self).parser.diagnostics@,
            r is Some ==> r->0@.constants.len() <= 256,
            r is Some ==> constants_read(numbers, old(self).parser.scanner.text(), r->0@.constants, 0),
            old(self).parser.scanner.current == 0 && old(self).parser.scanner.line == 1
                && !old(self).parser.had_error ==> {
                let s = old(self).parser.scanner.text();
                &&& (r is Some <==> compiled(s) is Some)
                &&& (r is Some ==> r->0@.code == (compiled(s)->0).0)
                &&& (r is Some ==> r->0@.lines == (compiled(s)->0).1)
                &&& (r is Some ==> r->0@.constants.len() == (compiled(s)->0).2)
                &&& ({
                    let st = step_tok(s, PState { kind: TokenKind::Eof, c: 0, line: 1 });
                    st is Some && g_expression(s, st->0, 0) is Some && g_expression(
                        s,
                        st->0,
                        0,
                    )->0.st.kind != TokenKind::Eof && old(self).parser.diagnostics@.len() == 0
                        ==> {
                        let p = g_expression(s, st->0, 0)->0;
                        &&& r is None
                        &&& final(self).parser.diagnostics@.len() == 1
                        &&& final(self).parser.current.kind == p.st.kind
                        &&& final(self).parser.current.line == p.st.line
                        &&& reports(
                            final(self).parser.diagnostics@[0],
                            final(self).parser.current,
                            "Expected end of expression."@,
                        )
                    }
                })
            },
            r is None ==> final(self).parser.diagnostics@.len() > 0,
            old(self).parser.had_error ==> r is None,
            scan_step(
                old(self).parser.scanner.text(),
                old(self).parser.scanner.current as int,
                old(self).parser.scanner.line as int,
            ).kind == TokenKind::Error ==> r is None,
            r is Some ==> {
                &&& r->0.wf()
                &&& r->0.is_complete()
                &&& r->0@.code.len() > 0
                &&& r->0@.code.last() == opcode_byte(Opcode::Return)
                &&& run_outcome(
                    r->0@.code,
                    r->0@.constants.len(),
                    0,
                    0,
                ) == InterpretResult::Success
                &&& end_depth(
                    r->0@.code,
                    r->0@.constants.len(),
                    0,
                    0,
                ) == 0
            },
    {
        let ghost s = self.parser.scanner.source@;
        let ghost fresh = self.parser.scanner.current == 0 && self.parser.scanner.line == 1
            && !self.parser.had_error;
        let ghost st0 = PState { kind: TokenKind::Eof, c: 0, line: 1 };
        self.parser.advance();
        let ghost st1 = self.parser.place();
        proof {
            if fresh && scan_step(s, 0, 1).kind != TokenKind::Error {
                assert(next_real(s, 0, 1) == scan_step(s, 0, 1));
                assert(step_tok(s, st0) == Some(st1));
            }
        }
        let ghost before = self.parser;
        proof {
            assert(constants_read(numbers, s, self.chunk@.constants, 0));
        }
        let frag = self.parser.expression(&mut self.chunk, numbers);
        let ghost k = self.chunk@.constants;
        let ghost g = g_expression(s, st1, 0);
        let ghost n = self.chunk@.constants.len();
        let ghost parsed = self.parser;
        let mut i: usize = 0;
        while i < frag.code.len()
            invariant
                0 <= i <= frag.code@.len(),
                frag.valid(n),
                self.chunk.wf(),
                self.chunk@.constants.len() == n,
                self.chunk@.constants == k,
                self.chunk@.code == frag.code@.subrange(0, i as int),
                self.chunk@.lines == frag.lines@.subrange(0, i as int),
                self.parser == parsed,
            decreases frag.code@.len() - i,
        {
            self.chunk.write(frag.code[i], frag.lines[i]);
            proof {
                assert(frag.code@.subrange(0, i + 1) =~= frag.code@.subrange(0, i as int).push(
                    frag.code@[i as int],
                ));
                assert(frag.lines@.subrange(0, i + 1) =~= frag.lines@.subrange(0, i as int).push(
                    frag.lines@[i as int],
                ));
            }
            i = i + 1;
        }
        proof {
            assert(frag.code@.subrange(0, i as int) =~= frag.code@);
            assert(frag.lines@.subrange(0, i as int) =~= frag.lines@);
        }
        self.parser.consume(TokenKind::Eof, "Expected end of expression.");
        proof {
            if fresh && scan_step(s, 0, 1).kind != TokenKind::Error && !parsed.had_error {
                let p = g->0;
                if p.st.kind == TokenKind::Eof {
                    lemma_next_real_bounds(s, 0, 1);
                    let t = scan_step(s, p.st.c, p.st.line);
                    assert(skip_ws(s, p.st.c, p.st.line, false) == (p.st.c, p.st.line));
                    assert(t.kind == TokenKind::Eof);
                    assert(!self.parser.had_error);
                    assert(compiled(s) == Some((frag.code@.push(7), frag.lines@.push(p.st.line as i32), n)));
                } else {
                    assert(self.parser.had_error);
                }
            }
        }
        if self.parser.had_error {
            None
        } else {
            self.end();
            let mut chunk = Chunk::new();
            std::mem::swap(&mut chunk, &mut self.chunk);
            proof {
                let one = seq![opcode_byte(Opcode::Return)];
                assert(operands_valid(one, n, 1));
                lemma_operands_concat(frag.code@, one, n);
                assert(chunk@.code =~= frag.code@ + one);
                assert(frag.code@ + one =~= frag.code@.push(7));
                assert(stack_effect(frag.code@, 0, 0) == Some(0int + 1));
                lemma_expression_returns(frag.code@, n, 0, 0);
            }
            Some(chunk)
        }
    }

    /// Appends a byte, tagged with the line of the previous token.
    pub fn emit_byte(&mut self, byte: u8)
        requires
            old(self).wf(),
        ensures
            final(self).wf(),
            final(self).parser == old(self).parser,
            final(self).chunk@.code == old(self).chunk@.code.push(byte),
            final(self).chunk@.lines == old(self).chunk@.lines.push(
                old(self).parser.previous.line as i32,
            ),
            final(self).chunk@.constants == old(self).chunk@.constants,
    {
        self.chunk.write(byte, self.parser.previous.line as i32);
    }

    /// Appends two bytes, each tagged with the line of the previous token.
    pub fn emit_bytes(&mut self, byte1: u8, byte2: u8)
        requires
            old(self).wf(),
        ensures
            final(self).wf(),
            final(self).parser == old(self).parser,
            final(self).chunk@.code == old(self).chunk@.code.push(byte1).push(byte2),
            final(self).chunk@.lines == old(self).chunk@.lines.push(
                old(self).parser.previous.line as i32,
            ).push(old(self).parser.previous.line as i32),
            final(self).chunk@.constants == old(self).chunk@.constants,
    {
        self.emit_byte(byte1);
        self.emit_byte(byte2);
    }

    /// Appends the terminating `RETURN`.
    pub fn end(&mut self)
        requires
            old(self).wf(),
        ensures
            final(self).wf(),
            final(self).parser == old(self).parser,
            final(self).chunk@.code == old(self).chunk@.code.push(opcode_byte(Opcode::Return)),
            final(self).chunk@.lines == old(self).chunk@.lines.push(
                old(self).parser.previous.line as i32,
            ),
            final(self).chunk@.constants == old(self).chunk@.constants,
    {
        self.emit_byte(Opcode::Return.as_byte());
    }
}

} // verus!
