use loxvm::chunk::{Chunk, Opcode, Value};
use loxvm::compiler::{Compiler, ErrorPlace, Numbers};

#[test]
fn opcode_bytes_round_trip() {
    let all = [
        Opcode::Constant,
        Opcode::Add,
        Opcode::Subtract,
        Opcode::Multiply,
        Opcode::Divide,
        Opcode::Negate,
        Opcode::Return,
    ];
    for (i, op) in all.iter().enumerate() {
        assert_eq!(op.as_byte() as usize, i + 1);
        assert_eq!(Opcode::from_byte(op.as_byte()), Some(*op));
    }
    assert_eq!(Opcode::from_byte(0), None);
    assert_eq!(Opcode::from_byte(8), None);
    assert_eq!(Opcode::Divide.mnemonic(), "OP_DIVIDE");
}

#[test]
fn write_keeps_one_line_per_byte() {
    let mut chunk = Chunk::new();
    assert!(chunk.code().is_empty());
    chunk.write_instruction(Opcode::Constant, 1);
    let idx = chunk.add_constant(42);
    chunk.write(idx, 1);
    chunk.write_instruction(Opcode::Return, 2);
    assert_eq!(chunk.code(), &vec![1u8, 0, 7]);
    assert_eq!(chunk.lines(), &vec![1, 1, 2]);
    assert_eq!(chunk.lines().len(), chunk.code().len());
    assert_eq!(chunk.constants(), &vec![42u32]);
}

#[test]
fn add_constant_returns_consecutive_indices() {
    let mut chunk = Chunk::new();
    assert_eq!(chunk.add_constant(10), 0);
    assert_eq!(chunk.add_constant(20), 1);
    assert_eq!(chunk.add_constant(30), 2);
    assert_eq!(chunk.constants(), &vec![10u32, 20, 30]);
}

#[test]
fn disassembly_lines() {
    let mut chunk = Chunk::new();
    let idx = chunk.add_constant(99);
    chunk.write_instruction(Opcode::Constant, 123);
    chunk.write(idx, 123);
    chunk.write_instruction(Opcode::Negate, 123);
    chunk.write(0, 124);
    chunk.write_instruction(Opcode::Return, 124);
    chunk.write_instruction(Opcode::Constant, 125);

    let listing = chunk.disassemble_chunk();
    assert_eq!(listing.len(), 5);
    let offsets: Vec<usize> = listing.iter().map(|l| l.offset).collect();
    assert_eq!(offsets, vec![0, 2, 3, 4, 5]);

    assert_eq!(listing[0].line, Some(123));
    assert_eq!(listing[0].op, Some(Opcode::Constant));
    assert_eq!(listing[0].operand, Some(0));
    assert_eq!(listing[0].value, Some(99));
    assert_eq!(listing[0].next, 2);

    assert_eq!(listing[1].line, None);
    assert_eq!(listing[1].op, Some(Opcode::Negate));
    assert_eq!(listing[1].next, 3);

    assert_eq!(listing[2].line, Some(124));
    assert_eq!(listing[2].op, None);
    assert_eq!(listing[2].byte, 0);

    assert_eq!(listing[3].line, None);
    assert_eq!(listing[3].op, Some(Opcode::Return));

    assert_eq!(listing[4].line, Some(125));
    assert_eq!(listing[4].operand, None);
    assert_eq!(listing[4].value, None);
    assert_eq!(listing[4].next, 7);

    assert_eq!(chunk.disassemble_instruction(2), listing[1]);
}

struct DecimalNumbers;

impl Numbers for DecimalNumbers {
    fn number(&self, lexeme: &[u8]) -> Value {
        std::str::from_utf8(lexeme).unwrap().parse::<f32>().unwrap().to_bits()
    }
}

fn compile(source: &str) -> (Option<Chunk>, Compiler<'_>) {
    let mut compiler = Compiler::new(source);
    let chunk = compiler.compile(&DecimalNumbers);
    (chunk, compiler)
}

#[test]
fn compile_number_and_operators() {
    let (chunk, _) = compile("1 - 2");
    let chunk = chunk.expect("compiles");
    // The right operand runs first, so that the machine computes left - right.
    assert_eq!(chunk.code(), &vec![1u8, 1, 1, 0, 3, 7]);
    assert_eq!(chunk.constants(), &vec![1.0f32.to_bits(), 2.0f32.to_bits()]);
    assert_eq!(chunk.lines(), &vec![1, 1, 1, 1, 1, 1]);
}

#[test]
fn compile_precedence_grouping_and_negation() {
    let (chunk, _) = compile("-(1 + 2) * 3");
    let chunk = chunk.expect("compiles");
    // 3 first, then the negated sum (2 first, then 1), then MULTIPLY and RETURN.
    assert_eq!(chunk.code(), &vec![1u8, 2, 1, 1, 1, 0, 2, 6, 4, 7]);
    let (chunk, _) = compile("1 + 2 * 3");
    assert_eq!(chunk.unwrap().code(), &vec![1u8, 2, 1, 1, 4, 1, 0, 2, 7]);
}

#[test]
fn compile_tags_bytes_with_lines() {
    let (chunk, _) = compile("1\n+\n2");
    assert_eq!(chunk.unwrap().lines(), &vec![3, 3, 1, 1, 2, 3]);
}

#[test]
fn compile_empty_source_expects_expression() {
    let (chunk, compiler) = compile("  // nothing\n");
    assert!(chunk.is_none());
    let diags = &compiler.parser.diagnostics;
    assert_eq!(diags.len(), 1);
    assert_eq!(diags[0].line, 2);
    assert_eq!(diags[0].message, "Expect expression.");
    assert!(matches!(diags[0].place, ErrorPlace::End));
}

#[test]
fn compile_reports_leftover_token() {
    let (chunk, compiler) = compile("\n12 )");
    assert!(chunk.is_none());
    assert!(compiler.parser.had_error);
    let diags = &compiler.parser.diagnostics;
    assert_eq!(diags.len(), 1);
    assert_eq!(diags[0].line, 2);
    assert_eq!(diags[0].message, "Expected end of expression.");
    match diags[0].place {
        ErrorPlace::At(lexeme) => assert_eq!(lexeme, b")"),
        _ => panic!("expected a lexeme"),
    }
}

#[test]
fn compile_reports_missing_paren() {
    let (chunk, compiler) = compile("(1");
    assert!(chunk.is_none());
    assert_eq!(compiler.parser.diagnostics[0].message, "Expect ')' after expression.");
    assert!(matches!(compiler.parser.diagnostics[0].place, ErrorPlace::End));
}

#[test]
fn compile_reports_scan_error_once() {
    let (chunk, compiler) = compile("\"abc");
    assert!(chunk.is_none());
    let diags = &compiler.parser.diagnostics;
    assert_eq!(diags.len(), 1);
    assert_eq!(diags[0].message, "Unterminated string");
    assert!(matches!(diags[0].place, ErrorPlace::Scan));
}

#[test]
fn compile_single_number() {
    let (chunk, compiler) = compile("1");
    let chunk = chunk.expect("compiles");
    assert_eq!(chunk.code(), &vec![1u8, 0, 7]);
    assert_eq!(chunk.constants(), &vec![1.0f32.to_bits()]);
    assert_eq!(chunk.lines(), &vec![1, 1, 1]);
    assert!(compiler.parser.diagnostics.is_empty());
}

#[test]
fn compile_two_numbers_reports_the_second() {
    let (chunk, compiler) = compile("1 2");
    assert!(chunk.is_none());
    let diags = &compiler.parser.diagnostics;
    assert_eq!(diags.len(), 1);
    assert_eq!(diags[0].line, 1);
    assert_eq!(diags[0].message, "Expected end of expression.");
    match diags[0].place {
        ErrorPlace::At(lexeme) => assert_eq!(lexeme, b"2"),
        _ => panic!("expected a lexeme"),
    }
}
