use m2_rslox::chunk::{Chunk, OpCode};
use m2_rslox::debug::{disassemble_chunk, disassemble_instruction};
use m2_rslox::value::Value;
use m2_rslox::vm::VM;

fn number(x: f64) -> Value {
    Value::Number(x.to_bits())
}

fn as_number(value: Option<Value>) -> f64 {
    match value {
        Some(Value::Number(bits)) => f64::from_bits(bits),
        other => panic!("expected a number, got {:?}", other),
    }
}

#[test]
fn new_chunk_is_empty() {
    let chunk = Chunk::new();
    assert!(chunk.code().is_empty());
    assert!(chunk.lines().is_empty());
    assert!(chunk.constants().is_empty());
}

#[test]
fn write_appends_code_and_line_together() {
    let mut chunk = Chunk::new();
    chunk.write(OpCode::Nil, 3);
    chunk.write(OpCode::Return, 4);
    assert_eq!(chunk.code(), &vec![OpCode::Nil, OpCode::Return]);
    assert_eq!(chunk.lines(), &vec![3, 4]);
    assert!(chunk.constants().is_empty());
}

#[test]
fn add_constant_numbers_the_constants_from_zero() {
    let mut chunk = Chunk::new();
    assert_eq!(chunk.add_constant(number(1.5)), 0);
    assert_eq!(chunk.add_constant(Value::Nil), 1);
    assert_eq!(chunk.add_constant(number(1.5)), 2);
    assert_eq!(chunk.constants().len(), 3);
    assert!(matches!(chunk.constants()[0], Value::Number(bits) if bits == 1.5f64.to_bits()));
    assert!(matches!(chunk.constants()[1], Value::Nil));
    assert!(chunk.code().is_empty());
}

#[test]
fn add_constant_fills_the_pool_to_256() {
    let mut chunk = Chunk::new();
    for i in 0..256usize {
        assert_eq!(chunk.add_constant(number(i as f64)) as usize, i);
    }
    assert_eq!(chunk.constants().len(), 256);
}

#[test]
fn an_empty_chunk_runs_to_nothing() {
    let mut vm = VM::new();
    vm.load(Chunk::new());
    assert!(matches!(vm.run(), Ok(None)));
    assert_eq!(vm.ip(), 0);
}

#[test]
fn a_chunk_written_by_hand_runs() {
    let mut chunk = Chunk::new();
    let a = chunk.add_constant(number(1.2));
    let b = chunk.add_constant(number(3.4));
    let c = chunk.add_constant(number(5.6));
    chunk.write(OpCode::Constant(a), 123);
    chunk.write(OpCode::Constant(b), 123);
    chunk.write(OpCode::Add, 123);
    chunk.write(OpCode::Constant(c), 123);
    chunk.write(OpCode::Div, 123);
    chunk.write(OpCode::Negate, 123);
    chunk.write(OpCode::Return, 123);
    let mut vm = VM::new();
    vm.load(chunk);
    assert_eq!(as_number(vm.run().unwrap()), -((1.2 + 3.4) / 5.6));
    assert_eq!(vm.ip(), 7);
    assert!(vm.stack().is_empty());
}

#[test]
fn run_stops_at_the_first_return() {
    let mut chunk = Chunk::new();
    chunk.write(OpCode::True, 1);
    chunk.write(OpCode::Nil, 1);
    chunk.write(OpCode::Return, 1);
    chunk.write(OpCode::Return, 2);
    let mut vm = VM::new();
    vm.load(chunk);
    assert!(matches!(vm.run(), Ok(Some(Value::Nil))));
    assert_eq!(vm.ip(), 3);
    assert_eq!(vm.stack().len(), 1);
    assert!(matches!(vm.run(), Ok(Some(Value::Bool(true)))));
    assert_eq!(vm.ip(), 4);
    assert!(vm.stack().is_empty());
}

#[test]
fn a_runtime_error_names_the_line_and_clears_the_stack() {
    let mut chunk = Chunk::new();
    chunk.write(OpCode::True, 1);
    chunk.write(OpCode::Nil, 2);
    chunk.write(OpCode::Nil, 3);
    chunk.write(OpCode::Less, 4);
    chunk.write(OpCode::Return, 5);
    let mut vm = VM::new();
    vm.load(chunk);
    let fault = vm.run().unwrap_err();
    assert_eq!(fault.message, "Operands must be numbers");
    assert_eq!(fault.line, 4);
    assert_eq!(vm.ip(), 4);
    assert!(vm.stack().is_empty());
}

#[test]
fn step_executes_one_instruction() {
    let mut chunk = Chunk::new();
    let one = chunk.add_constant(number(1.0));
    chunk.write(OpCode::Constant(one), 1);
    chunk.write(OpCode::False, 1);
    chunk.write(OpCode::Not, 1);
    chunk.write(OpCode::Equal, 1);
    chunk.write(OpCode::Return, 1);
    let mut vm = VM::new();
    vm.load(chunk);
    assert_eq!(vm.chunk().code().len(), 5);
    assert!(matches!(vm.step(), Ok(None)));
    assert_eq!(vm.ip(), 1);
    assert_eq!(vm.stack().len(), 1);
    assert!(matches!(vm.step(), Ok(None)));
    assert!(matches!(vm.stack()[1], Value::Bool(false)));
    assert!(matches!(vm.step(), Ok(None)));
    assert!(matches!(vm.stack()[1], Value::Bool(true)));
    assert!(matches!(vm.step(), Ok(None)));
    assert_eq!(vm.stack().len(), 1);
    assert!(matches!(vm.stack()[0], Value::Bool(false)));
    assert!(matches!(vm.step(), Ok(Some(Value::Bool(false)))));
    assert_eq!(vm.ip(), 5);
    assert!(vm.stack().is_empty());
}

#[test]
fn step_reports_an_operand_that_is_no_number() {
    let mut chunk = Chunk::new();
    chunk.write(OpCode::Nil, 8);
    chunk.write(OpCode::Negate, 9);
    chunk.write(OpCode::Return, 9);
    let mut vm = VM::new();
    vm.load(chunk);
    assert!(matches!(vm.step(), Ok(None)));
    let fault = vm.step().unwrap_err();
    assert_eq!(fault.message, "Operand must be a number");
    assert_eq!(fault.line, 9);
    assert!(vm.stack().is_empty());
    assert_eq!(vm.ip(), 2);
}

#[test]
fn every_instruction_runs() {
    let mut chunk = Chunk::new();
    let six = chunk.add_constant(number(6.0));
    let two = chunk.add_constant(number(2.0));
    for op in [OpCode::Add, OpCode::Sub, OpCode::Mul, OpCode::Div] {
        chunk.write(OpCode::Constant(six), 1);
        chunk.write(OpCode::Constant(two), 1);
        chunk.write(op, 1);
        chunk.write(OpCode::Return, 1);
    }
    for op in [OpCode::Greater, OpCode::Less, OpCode::Equal] {
        chunk.write(OpCode::Constant(six), 1);
        chunk.write(OpCode::Constant(two), 1);
        chunk.write(op, 1);
        chunk.write(OpCode::Return, 1);
    }
    let mut vm = VM::new();
    vm.load(chunk);
    assert_eq!(as_number(vm.run().unwrap()), 8.0);
    assert_eq!(as_number(vm.run().unwrap()), 4.0);
    assert_eq!(as_number(vm.run().unwrap()), 12.0);
    assert_eq!(as_number(vm.run().unwrap()), 3.0);
    assert!(matches!(vm.run(), Ok(Some(Value::Bool(true)))));
    assert!(matches!(vm.run(), Ok(Some(Value::Bool(false)))));
    assert!(matches!(vm.run(), Ok(Some(Value::Bool(false)))));
}

#[test]
fn a_listing_marks_repeated_lines() {
    let mut chunk = Chunk::new();
    let a = chunk.add_constant(number(1.2));
    chunk.write(OpCode::Constant(a), 123);
    chunk.write(OpCode::Negate, 123);
    chunk.write(OpCode::Return, 124);
    let rows = disassemble_chunk(&chunk);
    assert_eq!(rows.len(), 3);
    assert_eq!((rows[0].offset, rows[0].line, rows[0].op), (0, Some(123), OpCode::Constant(0)));
    assert!(matches!(rows[0].constant, Some(Value::Number(bits)) if bits == 1.2f64.to_bits()));
    assert_eq!((rows[1].offset, rows[1].line, rows[1].op), (1, None, OpCode::Negate));
    assert!(rows[1].constant.is_none());
    assert_eq!((rows[2].offset, rows[2].line, rows[2].op), (2, Some(124), OpCode::Return));
    let row = disassemble_instruction(&chunk, 1);
    assert_eq!((row.offset, row.line, row.op), (1, None, OpCode::Negate));
}

#[test]
fn a_chunk_that_faults_before_it_lacks_a_value_runs_to_the_fault() {
    let mut chunk = Chunk::new();
    chunk.write(OpCode::True, 1);
    chunk.write(OpCode::Negate, 2);
    chunk.write(OpCode::Add, 3);
    chunk.write(OpCode::Return, 4);
    let mut vm = VM::new();
    vm.load(chunk);
    assert!(!vm.can_run());
    assert!(vm.can_step());
    let fault = vm.run().unwrap_err();
    assert_eq!(fault.message, "Operand must be a number");
    assert_eq!(fault.line, 2);
    assert_eq!(vm.ip(), 2);
    assert!(vm.stack().is_empty());
    assert!(!vm.can_step());
}

#[test]
fn can_step_tells_whether_the_instruction_finds_what_it_needs() {
    let vm = VM::new();
    assert!(!vm.can_step());
    let mut chunk = Chunk::new();
    chunk.write(OpCode::Nil, 1);
    chunk.write(OpCode::Not, 1);
    chunk.write(OpCode::Nil, 1);
    chunk.write(OpCode::Equal, 1);
    chunk.write(OpCode::Return, 1);
    chunk.write(OpCode::Return, 1);
    chunk.write(OpCode::Constant(0), 1);
    let mut vm = VM::new();
    vm.load(chunk);
    for _ in 0..5 {
        assert!(vm.can_step());
        assert!(vm.step().is_ok());
    }
    assert_eq!(vm.ip(), 5);
    assert!(!vm.can_step());
}

#[test]
fn can_step_wants_the_constant_to_be_there() {
    let mut chunk = Chunk::new();
    chunk.write(OpCode::Constant(0), 1);
    let mut vm = VM::new();
    vm.load(chunk);
    assert!(!vm.can_step());
    let mut chunk = Chunk::new();
    chunk.add_constant(Value::Nil);
    chunk.write(OpCode::Constant(0), 1);
    let mut vm = VM::new();
    vm.load(chunk);
    assert!(vm.can_step());
    assert!(matches!(vm.step(), Ok(None)));
    assert!(!vm.can_step());
}

#[test]
fn can_run_counts_the_values_that_the_instructions_need() {
    let vm = VM::new();
    assert!(!vm.can_run());

    let mut vm = VM::new();
    vm.load(Chunk::new());
    assert!(vm.can_run());

    let mut chunk = Chunk::new();
    let one = chunk.add_constant(number(1.0));
    chunk.write(OpCode::Constant(one), 1);
    chunk.write(OpCode::Nil, 1);
    chunk.write(OpCode::Equal, 1);
    chunk.write(OpCode::Not, 1);
    chunk.write(OpCode::Return, 1);
    let mut vm = VM::new();
    vm.load(chunk);
    assert!(vm.can_run());
    assert!(matches!(vm.run(), Ok(Some(Value::Bool(true)))));
    assert!(!vm.can_run());

    for code in [
        vec![OpCode::Return],
        vec![OpCode::Nil],
        vec![OpCode::Nil, OpCode::Add, OpCode::Return],
        vec![OpCode::Not, OpCode::Return],
        vec![OpCode::Constant(1), OpCode::Return],
        vec![OpCode::Nil, OpCode::Nil, OpCode::Less],
    ] {
        let mut chunk = Chunk::new();
        chunk.add_constant(Value::Nil);
        for op in code {
            chunk.write(op, 1);
        }
        let mut vm = VM::new();
        vm.load(chunk);
        assert!(!vm.can_run());
    }
}

#[test]
fn a_compiled_chunk_can_run() {
    let mut compiler = m2_rslox::compiler::Compiler::new("!(1 + 2 * 3 >= -4) == nil");
    let chunk = compiler.compile().unwrap();
    let mut vm = VM::new();
    vm.load(chunk);
    assert!(vm.can_run());
    assert!(matches!(vm.run(), Ok(Some(Value::Bool(false)))));
}
