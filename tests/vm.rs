use loxvm::chunk::{Chunk, Opcode, Value};
use loxvm::compiler::Numbers;
use loxvm::vm::{Arithmetic, InterpretResult, Step, VM};

struct Float;

impl Arithmetic for Float {
    fn add(&self, a: Value, b: Value) -> Value {
        (f32::from_bits(a) + f32::from_bits(b)).to_bits()
    }
    fn subtract(&self, a: Value, b: Value) -> Value {
        (f32::from_bits(a) - f32::from_bits(b)).to_bits()
    }
    fn multiply(&self, a: Value, b: Value) -> Value {
        (f32::from_bits(a) * f32::from_bits(b)).to_bits()
    }
    fn divide(&self, a: Value, b: Value) -> Value {
        (f32::from_bits(a) / f32::from_bits(b)).to_bits()
    }
    fn negate(&self, a: Value) -> Value {
        (-f32::from_bits(a)).to_bits()
    }
}

fn constant(chunk: &mut Chunk, v: f32) {
    let idx = chunk.add_constant(v.to_bits());
    chunk.write_instruction(Opcode::Constant, 123);
    chunk.write(idx, 123);
}

#[test]
fn hand_assembled_arithmetic() {
    let mut chunk = Chunk::new();
    constant(&mut chunk, 1.2);
    constant(&mut chunk, 3.4);
    chunk.write_instruction(Opcode::Add, 123);
    constant(&mut chunk, 5.6);
    chunk.write_instruction(Opcode::Divide, 123);
    chunk.write_instruction(Opcode::Negate, 123);
    chunk.write_instruction(Opcode::Return, 123);

    let mut vm = VM::new();
    vm.install(chunk);
    let (result, value, invalid) = vm.run(&Float);
    assert_eq!(result, InterpretResult::Success);
    assert!(invalid.is_empty());
    assert!(vm.stack.is_empty());
    assert_eq!(vm.ip, 10);
    let got = f32::from_bits(value.unwrap());
    let want = -(5.6f32 / (1.2f32 + 3.4f32));
    assert_eq!(got, want);
    assert!((got + 1.217391).abs() < 1e-5);
}

#[test]
fn subtract_pops_first_operand_first() {
    let mut chunk = Chunk::new();
    constant(&mut chunk, 10.0);
    constant(&mut chunk, 4.0);
    chunk.write_instruction(Opcode::Subtract, 1);
    chunk.write_instruction(Opcode::Return, 1);
    let mut vm = VM::new();
    vm.install(chunk);
    let (result, value, _) = vm.run(&Float);
    assert_eq!(result, InterpretResult::Success);
    assert_eq!(f32::from_bits(value.unwrap()), -6.0);
}

#[test]
fn multiply_runs() {
    let mut chunk = Chunk::new();
    constant(&mut chunk, 2.5);
    constant(&mut chunk, 4.0);
    chunk.write_instruction(Opcode::Multiply, 1);
    chunk.write_instruction(Opcode::Return, 1);
    let mut vm = VM::new();
    vm.install(chunk);
    assert_eq!(vm.run(&Float).1.map(f32::from_bits), Some(10.0));
}

#[test]
fn step_reports_each_instruction() {
    let mut chunk = Chunk::new();
    constant(&mut chunk, 1.0);
    constant(&mut chunk, 2.0);
    chunk.write_instruction(Opcode::Add, 1);
    let mut vm = VM::new();
    vm.install(chunk);
    assert_eq!(vm.step(), Step::Pushed);
    assert_eq!(vm.step(), Step::Pushed);
    assert_eq!(vm.step(), Step::Binary(Opcode::Add, 2.0f32.to_bits(), 1.0f32.to_bits()));
    assert!(vm.stack.is_empty());
    assert_eq!(vm.step(), Step::Halt);
}

#[test]
fn missing_return_is_a_compile_error() {
    let mut chunk = Chunk::new();
    constant(&mut chunk, 1.0);
    let mut vm = VM::new();
    vm.install(chunk);
    assert_eq!(vm.run(&Float), (InterpretResult::CompileError, None, vec![]));
}

#[test]
fn underflow_is_a_runtime_error() {
    let mut chunk = Chunk::new();
    chunk.write_instruction(Opcode::Negate, 1);
    let mut vm = VM::new();
    vm.install(chunk);
    assert_eq!(vm.run(&Float).0, InterpretResult::RuntimeError);
}

#[test]
fn bad_constant_operand_is_a_runtime_error() {
    let mut chunk = Chunk::new();
    chunk.write_instruction(Opcode::Constant, 1);
    chunk.write(3, 1);
    let mut vm = VM::new();
    vm.install(chunk);
    assert_eq!(vm.step(), Step::Fault);
    assert_eq!(vm.ip, 0);
}

#[test]
fn unknown_bytes_are_skipped_and_listed() {
    let mut chunk = Chunk::new();
    chunk.write(0, 1);
    constant(&mut chunk, 3.0);
    chunk.write(200, 1);
    chunk.write_instruction(Opcode::Return, 1);
    let mut vm = VM::new();
    vm.install(chunk);
    let (result, value, invalid) = vm.run(&Float);
    assert_eq!(result, InterpretResult::Success);
    assert_eq!(value.map(f32::from_bits), Some(3.0));
    assert_eq!(invalid, vec![0u8, 200]);
}

struct DecimalNumbers;

impl Numbers for DecimalNumbers {
    fn number(&self, lexeme: &[u8]) -> Value {
        std::str::from_utf8(lexeme).unwrap().parse::<f32>().unwrap().to_bits()
    }
}

fn evaluate(source: &str) -> Option<f32> {
    let mut vm = VM::new();
    vm.load(source, &DecimalNumbers).ok()?;
    let (result, value, _) = vm.run(&Float);
    assert_eq!(result, InterpretResult::Success);
    value.map(f32::from_bits)
}

#[test]
fn load_compiles_and_installs() {
    let mut vm = VM::new();
    assert!(vm.load("2", &DecimalNumbers).is_ok());
    assert_eq!(vm.chunk.code(), &vec![1u8, 0, 7]);
    assert_eq!(vm.ip, 0);
    assert_eq!(vm.run(&Float).1.map(f32::from_bits), Some(2.0));
    let errs = vm.load("1 +", &DecimalNumbers).unwrap_err();
    assert_eq!(errs.len(), 1);
    assert_eq!(errs[0].message, "Expect expression.");
    assert_eq!(vm.chunk.code(), &vec![1u8, 0, 7]);
}

#[test]
fn source_arithmetic_follows_the_usual_rules() {
    assert_eq!(evaluate("1 + 2 * 3"), Some(7.0));
    assert_eq!(evaluate("(1 - 2) / 4"), Some(-0.25));
    assert_eq!(evaluate("10 - 4 - 3"), Some(3.0));
    assert_eq!(evaluate("-(1.2 + 3.4) / 5.6"), Some(-(1.2f32 + 3.4f32) / 5.6f32));
    assert_eq!(evaluate("--3"), Some(3.0));
    assert_eq!(evaluate("1 +"), None);
}
