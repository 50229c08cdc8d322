//! The stack machine that executes a chunk.

use vstd::prelude::*;
use vstd::std_specs::ops::{AddSpec, DivSpec, MulSpec, NegSpec, NotSpec, SubSpec};
use vstd::string::*;
use crate::chunk::{height, lemma_height_operands, Chunk, ChunkView, OpCode, MAX_CONSTANTS};
use crate::compiler::{compile_source, diagnostics_view, operator_code, Compiler, Diagnostic};
use crate::scanner::TokenType;
use crate::number::number_lt;
use crate::value::Value;

verus! {

/// What one instruction does to the stack.
pub enum Step {
    /// Execution goes on with this stack.
    Next(Seq<Value>),
    /// `Return` popped this value and left this stack.
    Done(Value, Seq<Value>),
    /// An operand had the wrong type; the text is the message.
    Fault(Seq<char>),
    /// The instruction needs more values than the stack holds, or a constant
    /// that the pool does not hold.
    Stuck,
}

/// How the execution of a chunk ends.
pub enum Outcome {
    /// `Return` popped `value`; `ip` is the index after it.
    Value { value: Value, ip: int, stack: Seq<Value> },
    /// The instruction before `ip` failed on the type of an operand.
    Fault { message: Seq<char>, line: usize, ip: int },
    /// Execution ran past the last instruction or an instruction was stuck.
    Stuck,
}

/// True for the four arithmetic instructions and the two comparisons, which
/// all take two numbers.
pub open spec fn is_numeric_binary(op: OpCode) -> bool {
    op is Add || op is Sub || op is Mul || op is Div || op is Greater || op is Less
}

/// The result of a numeric binary instruction on two numbers.
pub open spec fn numeric_result(op: OpCode, a: Value, b: Value) -> Value
    recommends
        is_numeric_binary(op),
        a is Number,
        b is Number,
{
    match op {
        OpCode::Add => a.add_spec(b),
        OpCode::Sub => a.sub_spec(b),
        OpCode::Mul => a.mul_spec(b),
        OpCode::Div => a.div_spec(b),
        OpCode::Greater => Value::Bool(number_lt(b->Number_0, a->Number_0)),
        _ => Value::Bool(number_lt(a->Number_0, b->Number_0)),
    }
}

/// The effect of one instruction on a stack, given the constant pool.
pub open spec fn step(op: OpCode, constants: Seq<Value>, stack: Seq<Value>) -> Step {
    let n = stack.len() as int;
    match op {
        OpCode::Constant(id) => if (id as int) < constants.len() {
            Step::Next(stack.push(constants[id as int]))
        } else {
            Step::Stuck
        },
        OpCode::Nil => Step::Next(stack.push(Value::Nil)),
        OpCode::True => Step::Next(stack.push(Value::Bool(true))),
        OpCode::False => Step::Next(stack.push(Value::Bool(false))),
        OpCode::Negate => if n < 1 {
            Step::Stuck
        } else if stack[n - 1] is Number {
            Step::Next(stack.take(n - 1).push(stack[n - 1].neg_spec()))
        } else {
            Step::Fault("Operand must be a number"@)
        },
        OpCode::Not => if n < 1 {
            Step::Stuck
        } else {
            Step::Next(stack.take(n - 1).push(stack[n - 1].not_spec()))
        },
        OpCode::Equal => if n < 2 {
            Step::Stuck
        } else {
            Step::Next(stack.take(n - 2).push(Value::Bool(stack[n - 2].same(stack[n - 1]))))
        },
        OpCode::Return => if n < 1 {
            Step::Stuck
        } else {
            Step::Done(stack[n - 1], stack.take(n - 1))
        },
        _ => if n < 2 {
            Step::Stuck
        } else if stack[n - 2] is Number && stack[n - 1] is Number {
            Step::Next(stack.take(n - 2).push(numeric_result(op, stack[n - 2], stack[n - 1])))
        } else {
            Step::Fault("Operands must be numbers"@)
        },
    }
}

/// The execution of a chunk from instruction `ip` on `stack`, one
/// instruction after the other, up to the first `Return` or fault.
pub open spec fn execute(chunk: ChunkView, ip: int, stack: Seq<Value>) -> Outcome
    decreases chunk.code.len() - ip,
{
    if ip < 0 || ip >= chunk.code.len() {
        Outcome::Stuck
    } else {
        match step(chunk.code[ip], chunk.constants, stack) {
            Step::Next(rest) => execute(chunk, ip + 1, rest),
            Step::Done(value, rest) => Outcome::Value { value, ip: ip + 1, stack: rest },
            Step::Fault(message) => Outcome::Fault { message, line: chunk.lines[ip], ip: ip + 1 },
            Step::Stuck => Outcome::Stuck,
        }
    }
}

/// True when the instructions from `ip` on, started on a stack of `depth`
/// values, never need a value or a constant that is not there and reach a
/// `Return` with at least one value to pop. It is decided by counting alone,
/// whatever the values are.
pub open spec fn stack_safe(chunk: ChunkView, ip: int, depth: int) -> bool
    decreases chunk.code.len() - ip,
{
    if ip < 0 || ip >= chunk.code.len() {
        false
    } else {
        match chunk.code[ip] {
            OpCode::Constant(id) => (id as int) < chunk.constants.len() && stack_safe(
                chunk,
                ip + 1,
                depth + 1,
            ),
            OpCode::Nil | OpCode::True | OpCode::False => stack_safe(chunk, ip + 1, depth + 1),
            OpCode::Negate | OpCode::Not => depth >= 1 && stack_safe(chunk, ip + 1, depth),
            OpCode::Return => depth >= 1,
            _ => depth >= 2 && stack_safe(chunk, ip + 1, depth - 1),
        }
    }
}

/// The effect of several instructions, one after the other, up to the first
/// that does not go on.
pub open spec fn run_all(ops: Seq<OpCode>, constants: Seq<Value>, stack: Seq<Value>) -> Step
    decreases ops.len(),
{
    if ops.len() == 0 {
        Step::Next(stack)
    } else {
        match step(ops[0], constants, stack) {
            Step::Next(next) => run_all(ops.skip(1), constants, next),
            other => other,
        }
    }
}

/// Running two pieces of code in a row is running the first and, where it
/// goes on, the second on what it leaves.
pub proof fn lemma_run_all_append(
    a: Seq<OpCode>,
    b: Seq<OpCode>,
    constants: Seq<Value>,
    stack: Seq<Value>,
)
    ensures
        run_all(a + b, constants, stack) == match run_all(a, constants, stack) {
            Step::Next(next) => run_all(b, constants, next),
            other => other,
        },
    decreases a.len(),
{
    if a.len() == 0 {
        assert(a + b =~= b);
    } else {
        assert((a + b).skip(1) =~= a.skip(1) + b);
        if let Step::Next(next) = step(a[0], constants, stack) {
            lemma_run_all_append(a.skip(1), b, constants, next);
        }
    }
}

/// Code that runs with a pool of constants runs alike with one constant
/// more.
pub proof fn lemma_run_all_more_constants(
    ops: Seq<OpCode>,
    constants: Seq<Value>,
    value: Value,
    stack: Seq<Value>,
)
    requires
        run_all(ops, constants, stack) is Next,
    ensures
        run_all(ops, constants.push(value), stack) == run_all(ops, constants, stack),
    decreases ops.len(),
{
    if ops.len() > 0 {
        if let Step::Next(next) = step(ops[0], constants, stack) {
            assert(step(ops[0], constants.push(value), stack) == Step::Next(next));
            lemma_run_all_more_constants(ops.skip(1), constants, value, next);
        }
    }
}

/// Where the code before a final `Return` runs and leaves a value on top of
/// the stack, executing the chunk yields that value.
pub proof fn lemma_execute_run_all(chunk: ChunkView, from: int, stack: Seq<Value>)
    requires
        chunk.code.len() >= 1,
        chunk.code.last() == OpCode::Return,
        0 <= from < chunk.code.len(),
        run_all(chunk.code.subrange(from, chunk.code.len() - 1), chunk.constants, stack) is Next,
        run_all(
            chunk.code.subrange(from, chunk.code.len() - 1),
            chunk.constants,
            stack,
        )->Next_0.len() >= 1,
    ensures
        execute(chunk, from, stack) == ({
            let end = run_all(
                chunk.code.subrange(from, chunk.code.len() - 1),
                chunk.constants,
                stack,
            )->Next_0;
            Outcome::Value {
                value: end.last(),
                ip: chunk.code.len() as int,
                stack: end.drop_last(),
            }
        }),
    decreases chunk.code.len() - from,
{
    let last = chunk.code.len() - 1;
    let ops = chunk.code.subrange(from, last);
    if from < last {
        assert(ops[0] == chunk.code[from]);
        assert(ops.skip(1) =~= chunk.code.subrange(from + 1, last));
        if let Step::Next(next) = step(chunk.code[from], chunk.constants, stack) {
            lemma_execute_run_all(chunk, from + 1, next);
        }
    } else {
        assert(stack.take(stack.len() - 1) =~= stack.drop_last());
    }
}

/// Negating twice gives the truthiness of a value: `Not`, `Not` on `x` leaves
/// `true` where `x` is truthy and `false` where it is falsey. In particular
/// `nil` and `false` negate to `true`, and every number, zero too, to
/// `false`.
pub proof fn lemma_not_not(x: Value, constants: Seq<Value>, stack: Seq<Value>)
    ensures
        x.not_spec().not_spec() == Value::Bool(!x.falsey()),
        run_all(seq![OpCode::Not, OpCode::Not], constants, stack.push(x)) == Step::Next(
            stack.push(Value::Bool(!x.falsey())),
        ),
        Value::Nil.not_spec() == Value::Bool(true),
        Value::Bool(false).not_spec() == Value::Bool(true),
        x is Number ==> x.not_spec() == Value::Bool(false),
{
    let ops = seq![OpCode::Not, OpCode::Not];
    let once = stack.push(x.not_spec());
    assert(stack.push(x).take(stack.len() as int) =~= stack);
    assert(step(OpCode::Not, constants, stack.push(x)) == Step::Next(once));
    assert(once.take(stack.len() as int) =~= stack);
    assert(ops.skip(1) =~= seq![OpCode::Not]);
    assert(ops.skip(1).skip(1) =~= Seq::<OpCode>::empty());
    reveal_with_fuel(run_all, 3);
}

/// What the instructions of an operator leave of two operands `a` and `b`
/// that lie on top of `stack`.
pub open spec fn operator_result(
    operator: TokenType,
    a: Value,
    b: Value,
    constants: Seq<Value>,
    stack: Seq<Value>,
) -> Step {
    run_all(operator_code(operator), constants, stack.push(a).push(b))
}

/// `a != b` is compiled and evaluated as `!(a == b)`, whatever the values,
/// and is true of two values of different kinds.
/// `a >= b` is `!(a < b)` and `a <= b` is `!(a > b)` where both are numbers;
/// where one is not, each of the four is the same runtime error.
pub proof fn lemma_negated_operators(a: Value, b: Value, constants: Seq<Value>, stack: Seq<Value>)
    ensures
        operator_code(TokenType::BangEqual) == operator_code(TokenType::EqualEqual).push(
            OpCode::Not,
        ),
        operator_code(TokenType::GreaterEqual) == operator_code(TokenType::Less).push(OpCode::Not),
        operator_code(TokenType::LessEqual) == operator_code(TokenType::Greater).push(OpCode::Not),
        operator_result(TokenType::EqualEqual, a, b, constants, stack) == Step::Next(
            stack.push(Value::Bool(a.same(b))),
        ),
        operator_result(TokenType::BangEqual, a, b, constants, stack) == Step::Next(
            stack.push(Value::Bool(!a.same(b))),
        ),
        (a is Nil) != (b is Nil) || (a is Bool) != (b is Bool) || (a is Number) != (b is Number)
            ==> !a.same(b),
        a is Number && b is Number ==> {
            &&& operator_result(TokenType::Less, a, b, constants, stack) == Step::Next(
                stack.push(Value::Bool(number_lt(a->Number_0, b->Number_0))),
            )
            &&& operator_result(TokenType::GreaterEqual, a, b, constants, stack) == Step::Next(
                stack.push(Value::Bool(!number_lt(a->Number_0, b->Number_0))),
            )
            &&& operator_result(TokenType::Greater, a, b, constants, stack) == Step::Next(
                stack.push(Value::Bool(number_lt(b->Number_0, a->Number_0))),
            )
            &&& operator_result(TokenType::LessEqual, a, b, constants, stack) == Step::Next(
                stack.push(Value::Bool(!number_lt(b->Number_0, a->Number_0))),
            )
        },
        !(a is Number && b is Number) ==> {
            &&& operator_result(TokenType::Less, a, b, constants, stack) == Step::Fault(
                "Operands must be numbers"@,
            )
            &&& operator_result(TokenType::GreaterEqual, a, b, constants, stack) == Step::Fault(
                "Operands must be numbers"@,
            )
            &&& operator_result(TokenType::Greater, a, b, constants, stack) == Step::Fault(
                "Operands must be numbers"@,
            )
            &&& operator_result(TokenType::LessEqual, a, b, constants, stack) == Step::Fault(
                "Operands must be numbers"@,
            )
        },
{
    let both = stack.push(a).push(b);
    assert(both.take(stack.len() as int) =~= stack);
    assert(operator_code(TokenType::BangEqual) =~= operator_code(TokenType::EqualEqual).push(
        OpCode::Not,
    ));
    assert(operator_code(TokenType::GreaterEqual) =~= operator_code(TokenType::Less).push(
        OpCode::Not,
    ));
    assert(operator_code(TokenType::LessEqual) =~= operator_code(TokenType::Greater).push(
        OpCode::Not,
    ));
    reveal_with_fuel(run_all, 3);
    assert forall|first: OpCode| #![auto] seq![first, OpCode::Not].skip(1).skip(1) =~= Seq::<
        OpCode,
    >::empty() && seq![first, OpCode::Not].skip(1) =~= seq![OpCode::Not] && seq![first].skip(1)
        =~= Seq::<OpCode>::empty() by {}
    assert forall|v: Value| #![auto] stack.push(v).take(stack.len() as int) =~= stack by {}
}

/// The instructions of an expression, from the `k`-th on, are safe for a
/// stack that holds at least as many values as the first `k` instructions
/// leave.
proof fn lemma_expression_safe(chunk: ChunkView, k: int, below: int)
    requires
        chunk.is_expression(),
        0 <= k < chunk.code.len(),
        0 <= below,
    ensures
        stack_safe(
            chunk,
            k,
            below + height(chunk.code, k, chunk.constants.len() as int)->0,
        ),
    decreases chunk.code.len() - k,
{
    let last = chunk.code.len() - 1;
    lemma_height_operands(chunk.code, last, chunk.constants.len() as int);
    if k < last {
        assert(height(chunk.code, k + 1, chunk.constants.len() as int) is Some);
        lemma_expression_safe(chunk, k + 1, below);
    }
}

/// The instructions of an expression, from the `k`-th on, run on a stack
/// that holds the values of `base` below as many values as the first `k`
/// instructions leave: the run ends with a fault, or with the final `Return`,
/// which leaves `base`.
proof fn lemma_expression_from(chunk: ChunkView, base: Seq<Value>, k: int, stack: Seq<Value>)
    requires
        chunk.wf(),
        chunk.is_expression(),
        0 <= k < chunk.code.len(),
        stack.len() == base.len() + height(chunk.code, k, chunk.constants.len() as int)->0,
        stack.take(base.len() as int) == base,
    ensures
        match execute(chunk, k, stack) {
            Outcome::Value { value, ip, stack } => ip == chunk.code.len() && stack == base,
            Outcome::Fault { message, line, ip } => 0 < ip <= chunk.code.len() && line
                == chunk.lines[ip - 1],
            Outcome::Stuck => false,
        },
    decreases chunk.code.len() - k,
{
    let last = chunk.code.len() - 1;
    let constants = chunk.constants.len() as int;
    lemma_height_operands(chunk.code, last, constants);
    if k == last {
        assert(stack.take(stack.len() - 1) =~= base);
    } else {
        assert(height(chunk.code, k + 1, constants) is Some);
        match step(chunk.code[k], chunk.constants, stack) {
            Step::Next(next) => {
                assert(next.take(base.len() as int) =~= base);
                lemma_expression_from(chunk, base, k + 1, next);
            },
            _ => {},
        }
    }
}

/// The code of an expression can be run on any stack. The run ends with a
/// fault on the type of an operand, or the final `Return` pops the one value
/// that the code has put on the stack, which leaves the stack as it was.
pub proof fn lemma_expression_runs(chunk: ChunkView, stack: Seq<Value>)
    requires
        chunk.wf(),
        chunk.is_expression(),
    ensures
        chunk.operands_valid(),
        stack_safe(chunk, 0, stack.len() as int),
        match execute(chunk, 0, stack) {
            Outcome::Value { value, ip, stack: rest } => ip == chunk.code.len() && rest == stack,
            Outcome::Fault { message, line, ip } => 0 < ip <= chunk.code.len() && line
                == chunk.lines[ip - 1],
            Outcome::Stuck => false,
        },
{
    lemma_height_operands(chunk.code, chunk.code.len() - 1, chunk.constants.len() as int);
    assert(stack.take(stack.len() as int) =~= stack);
    lemma_expression_safe(chunk, 0, stack.len() as int);
    lemma_expression_from(chunk, stack, 0, stack);
}

/// A runtime error: the message, and the source line of the instruction that
/// failed.
#[derive(Clone, Copy, Debug)]
pub struct Fault {
    pub message: &'static str,
    pub line: usize,
}

/// Why a source could not be interpreted to the end.
#[derive(Debug)]
pub enum InterpretResult<'s> {
    /// The source did not compile; the errors are in the order in which they
    /// were found, and there is at least one.
    CompileError(Vec<Diagnostic<'s>>),
    /// An instruction found an operand of the wrong type.
    RuntimeError(Fault),
}

/// What a virtual machine holds.
pub struct VMView {
    pub chunk: Option<ChunkView>,
    pub ip: int,
    pub stack: Seq<Value>,
}

pub struct VM {
    chunk: Option<Chunk>,
    ip: usize,
    stack: Vec<Value>,
}

impl View for VM {
    type V = VMView;

    closed spec fn view(&self) -> VMView {
        VMView {
            chunk: match self.chunk {
                Some(chunk) => Some(chunk@),
                None => None,
            },
            ip: self.ip as int,
            stack: self.stack@,
        }
    }
}

impl VMView {
    /// A chunk is loaded, there is a current instruction, and it finds on the
    /// stack and in the pool what it needs.
    pub open spec fn can_step(self) -> bool {
        &&& self.chunk is Some
        &&& self.chunk->0.wf()
        &&& 0 <= self.ip < self.chunk->0.code.len()
        &&& !(step(self.chunk->0.code[self.ip], self.chunk->0.constants, self.stack) is Stuck)
    }

    /// A chunk is loaded and the machine can run it: the chunk is empty, or
    /// execution from the current instruction reaches a `Return` or a fault
    /// without an instruction that lacks what it needs.
    pub open spec fn ready(self) -> bool {
        &&& self.chunk is Some
        &&& self.chunk->0.wf()
        &&& (self.chunk->0.code.len() == 0 || !(execute(self.chunk->0, self.ip, self.stack)
            is Stuck))
    }

    /// A chunk is loaded and is empty, or its instructions ahead are safe by
    /// counting alone (see [`stack_safe`]). A machine that is safe is ready
    /// (`lemma_safe_runs`).
    pub open spec fn safe(self) -> bool {
        &&& self.chunk is Some
        &&& self.chunk->0.wf()
        &&& (self.chunk->0.code.len() == 0 || stack_safe(
            self.chunk->0,
            self.ip,
            self.stack.len() as int,
        ))
    }
}

/// Instructions that are safe by counting run without an instruction that
/// lacks what it needs, whatever the values on the stack are.
pub proof fn lemma_safe_runs(chunk: ChunkView, ip: int, stack: Seq<Value>)
    requires
        stack_safe(chunk, ip, stack.len() as int),
    ensures
        !(execute(chunk, ip, stack) is Stuck),
    decreases chunk.code.len() - ip,
{
    if let Step::Next(next) = step(chunk.code[ip], chunk.constants, stack) {
        lemma_safe_runs(chunk, ip + 1, next);
    }
}

impl VM {
    /// A machine with no chunk and an empty stack.
    pub fn new() -> (vm: VM)
        ensures
            vm@.chunk is None,
            vm@.ip == 0,
            vm@.stack.len() == 0,
    {
        VM { chunk: None, ip: 0, stack: Vec::new() }
    }

    /// Takes a chunk to run from its first instruction. The stack stays as
    /// it is.
    pub fn load(&mut self, chunk: Chunk)
        ensures
            final(self)@ == (VMView { chunk: Some(chunk@), ip: 0, stack: old(self)@.stack }),
    {
        self.chunk = Some(chunk);
        self.ip = 0;
    }

    /// Compiles `source` and runs the chunk.
    ///
    /// A source with an error is not run and leaves the machine as it was.
    /// Otherwise the chunk is loaded and run on the stack as it is: the
    /// result is the value of the expression, which leaves the stack as it
    /// was, or a runtime error, which clears it.
    ///
    /// The bound on the length leaves the line counter room for every line
    /// feed. Every string meets it: none is longer than `isize::MAX` bytes.
    pub fn interpret<'s>(&mut self, source: &'s str) -> (r: Result<
        Option<Value>,
        InterpretResult<'s>,
    >)
        requires
            source.spec_bytes().len() < usize::MAX,
        ensures
            match compile_source(source.spec_bytes()) {
                Err(diagnostics) => r matches Err(InterpretResult::CompileError(list))
                    && diagnostics_view(list@) == diagnostics && diagnostics.len() > 0
                    && final(self)@ == old(self)@,
                Ok(chunk) => final(self)@.chunk == Some(chunk) && match execute(
                    chunk,
                    0,
                    old(self)@.stack,
                ) {
                    Outcome::Value { value, ip, stack } => r == Ok::<
                        Option<Value>,
                        InterpretResult<'s>,
                    >(Some(value)) && final(self)@.ip == chunk.code.len() && final(self)@.stack
                        == old(self)@.stack,
                    Outcome::Fault { message, line, ip } => r matches Err(
                        InterpretResult::RuntimeError(fault),
                    ) && fault.message@ == message && fault.line == line && final(self)@.ip == ip
                        && final(self)@.stack.len() == 0,
                    Outcome::Stuck => false,
                },
            },
    {
        let mut compiler = Compiler::new(source);
        match compiler.compile() {
            Ok(chunk) => {
                proof {
                    lemma_expression_runs(chunk@, self@.stack);
                }
                self.load(chunk);
            },
            Err(_) => {
                return Err(InterpretResult::CompileError(compiler.into_diagnostics()));
            },
        }
        match self.run() {
            Ok(value) => Ok(value),
            Err(fault) => Err(InterpretResult::RuntimeError(fault)),
        }
    }

    /// Runs the loaded chunk from the current instruction.
    ///
    /// An empty chunk ends at once with `Ok(None)` and changes nothing.
    /// Otherwise the machine executes up to the first `Return`, which pops
    /// the result, or to the first instruction that finds an operand of the
    /// wrong type; then the stack is cleared.
    pub fn run(&mut self) -> (r: Result<Option<Value>, Fault>)
        requires
            old(self)@.ready(),
        ensures
            final(self)@.chunk == old(self)@.chunk,
            old(self)@.chunk->0.code.len() == 0 ==> r == Ok::<Option<Value>, Fault>(None)
                && final(self)@ == old(self)@,
            old(self)@.chunk->0.code.len() != 0 ==> match execute(
                old(self)@.chunk->0,
                old(self)@.ip,
                old(self)@.stack,
            ) {
                Outcome::Value { value, ip, stack } => r == Ok::<Option<Value>, Fault>(Some(value))
                    && final(self)@.ip == ip && final(self)@.stack == stack,
                Outcome::Fault { message, line, ip } => r is Err && r->Err_0.message@ == message
                    && r->Err_0.line == line && final(self)@.ip == ip && final(self)@.stack.len()
                    == 0,
                Outcome::Stuck => false,
            },
    {
        if self.chunk().code().len() == 0 {
            return Ok(None);
        }
        loop
            invariant
                self@.chunk == old(self)@.chunk,
                self@.chunk is Some,
                self@.chunk->0.wf(),
                !(execute(self@.chunk->0, self@.ip, self@.stack) is Stuck),
                execute(self@.chunk->0, self@.ip, self@.stack) == execute(
                    old(self)@.chunk->0,
                    old(self)@.ip,
                    old(self)@.stack,
                ),
            decreases self@.chunk->0.code.len() - self@.ip,
        {
            match self.step() {
                Ok(Some(value)) => {
                    return Ok(Some(value));
                },
                Ok(None) => {},
                Err(fault) => {
                    return Err(fault);
                },
            }
        }
    }

    /// Executes the current instruction and moves to the next.
    ///
    /// The result is `Ok(None)` where execution goes on, `Ok(Some(value))`
    /// where the instruction was `Return` and popped `value`, and the error
    /// where an operand had the wrong type; the stack is then cleared.
    pub fn step(&mut self) -> (r: Result<Option<Value>, Fault>)
        requires
            old(self)@.can_step(),
        ensures
            final(self)@.chunk == old(self)@.chunk,
            final(self)@.ip == old(self)@.ip + 1,
            match step(
                old(self)@.chunk->0.code[old(self)@.ip],
                old(self)@.chunk->0.constants,
                old(self)@.stack,
            ) {
                Step::Next(stack) => r == Ok::<Option<Value>, Fault>(None) && final(self)@.stack
                    == stack,
                Step::Done(value, stack) => r == Ok::<Option<Value>, Fault>(Some(value))
                    && final(self)@.stack == stack,
                Step::Fault(message) => r is Err && r->Err_0.message@ == message && r->Err_0.line
                    == old(self)@.chunk->0.lines[old(self)@.ip] && final(self)@.stack.len() == 0,
                Step::Stuck => false,
            },
    {
        let ip = self.ip;
        let code = self.chunk().code();
        let instruction: OpCode = code[ip];
        assert(ip < code.len());
        let ghost before = self@;
        self.ip += 1;
        match instruction {
            OpCode::Return => {
                let value = self.pop();
                Ok(Some(value))
            },
            OpCode::Negate => {
                if let Value::Number(_) = self.peek(0) {
                    let value = self.pop();
                    self.push(core::ops::Neg::neg(value));
                    Ok(None)
                } else {
                    Err(self.runtime_error("Operand must be a number"))
                }
            },
            OpCode::Not => {
                let value = self.pop();
                self.push(core::ops::Not::not(value));
                Ok(None)
            },
            OpCode::Constant(id) => {
                let constant = self.read_constant(id as usize);
                self.push(constant);
                Ok(None)
            },
            OpCode::Nil => {
                self.push(Value::Nil);
                Ok(None)
            },
            OpCode::True => {
                self.push(Value::Bool(true));
                Ok(None)
            },
            OpCode::False => {
                self.push(Value::Bool(false));
                Ok(None)
            },
            OpCode::Equal => {
                let b = self.pop();
                let a = self.pop();
                self.push(Value::Bool(a == b));
                assert(self@.stack =~= before.stack.take(before.stack.len() - 2).push(
                    Value::Bool(a.same(b)),
                ));
                Ok(None)
            },
            _ => {
                match self.binary_op(instruction) {
                    Ok(()) => Ok(None),
                    Err(fault) => Err(fault),
                }
            },
        }
    }

    /// Tells whether the machine can take a step: whether a chunk is loaded,
    /// there is a current instruction, and it finds what it needs.
    pub fn can_step(&self) -> (r: bool)
        ensures
            r == self@.can_step(),
    {
        let chunk = match &self.chunk {
            Some(chunk) => chunk,
            None => {
                return false;
            },
        };
        if chunk.lines().len() != chunk.code().len() || chunk.constants().len() > MAX_CONSTANTS
            || self.ip >= chunk.code().len() {
            return false;
        }
        let depth = self.stack.len();
        match chunk.code()[self.ip] {
            OpCode::Constant(id) => (id as usize) < chunk.constants().len(),
            OpCode::Nil | OpCode::True | OpCode::False => true,
            OpCode::Negate | OpCode::Not | OpCode::Return => depth >= 1,
            _ => depth >= 2,
        }
    }

    /// Tells whether the machine is safe to run by counting alone, without
    /// looking at the values: see [`VMView::safe`]. A machine that is safe is
    /// ready to run.
    pub fn can_run(&self) -> (r: bool)
        ensures
            r == self@.safe(),
            r ==> self@.ready(),
    {
        let chunk = match &self.chunk {
            Some(chunk) => chunk,
            None => {
                return false;
            },
        };
        let code = chunk.code();
        if chunk.lines().len() != code.len() || chunk.constants().len() > MAX_CONSTANTS {
            return false;
        }
        if code.len() == 0 {
            return true;
        }
        proof {
            if stack_safe(chunk@, self.ip as int, self.stack@.len() as int) {
                lemma_safe_runs(chunk@, self.ip as int, self.stack@);
            }
        }
        let mut ip = self.ip;
        let count = self.stack.len();
        let mut depth: u128 = count as u128;
        loop
            invariant
                self@.chunk == Some(chunk@),
                chunk@.wf(),
                code@ == chunk@.code,
                code@.len() != 0,
                self.ip <= ip,
                self.stack@.len() <= usize::MAX,
                depth <= self.stack@.len() + (ip - self.ip),
                stack_safe(chunk@, self.ip as int, self.stack@.len() as int) ==> self@.ready(),
                stack_safe(chunk@, ip as int, depth as int) == stack_safe(
                    chunk@,
                    self.ip as int,
                    self.stack@.len() as int,
                ),
            decreases code@.len() - ip,
        {
            if ip >= code.len() {
                return false;
            }
            match code[ip] {
                OpCode::Return => {
                    return depth >= 1;
                },
                OpCode::Constant(id) => {
                    if id as usize >= chunk.constants().len() {
                        return false;
                    }
                    depth += 1;
                },
                OpCode::Nil | OpCode::True | OpCode::False => {
                    depth += 1;
                },
                OpCode::Negate | OpCode::Not => {
                    if depth < 1 {
                        return false;
                    }
                },
                _ => {
                    if depth < 2 {
                        return false;
                    }
                    depth -= 1;
                },
            }
            ip += 1;
        }
    }

    /// The values on the stack, the top one last.
    pub fn stack(&self) -> (stack: &Vec<Value>)
        ensures
            stack@ == self@.stack,
    {
        &self.stack
    }

    /// The index of the current instruction.
    pub fn ip(&self) -> (ip: usize)
        ensures
            ip == self@.ip,
    {
        self.ip
    }

    fn reset_stack(&mut self)
        ensures
            final(self)@.stack.len() == 0,
            final(self)@.chunk == old(self)@.chunk,
            final(self)@.ip == old(self)@.ip,
    {
        self.stack.clear();
    }

    /// Builds the report of a runtime error at the instruction just fetched
    /// and clears the stack.
    fn runtime_error(&mut self, message: &'static str) -> (fault: Fault)
        requires
            old(self)@.chunk is Some,
            old(self)@.chunk->0.wf(),
            0 < old(self)@.ip <= old(self)@.chunk->0.code.len(),
        ensures
            fault.message == message,
            fault.line == old(self)@.chunk->0.lines[old(self)@.ip - 1],
            final(self)@.stack.len() == 0,
            final(self)@.chunk == old(self)@.chunk,
            final(self)@.ip == old(self)@.ip,
    {
        let line = self.chunk().lines()[self.ip - 1];
        self.reset_stack();
        Fault { message, line }
    }

    fn read_constant(&self, id: usize) -> (value: Value)
        requires
            self@.chunk is Some,
            id < self@.chunk->0.constants.len(),
        ensures
            value == self@.chunk->0.constants[id as int],
    {
        self.chunk().constants()[id]
    }

    /// Executes an instruction that takes two numbers: pops them and pushes
    /// the result, or reports the operands.
    fn binary_op(&mut self, op: OpCode) -> (r: Result<(), Fault>)
        requires
            is_numeric_binary(op),
            old(self)@.stack.len() >= 2,
            old(self)@.chunk is Some,
            old(self)@.chunk->0.wf(),
            0 < old(self)@.ip <= old(self)@.chunk->0.code.len(),
        ensures
            final(self)@.chunk == old(self)@.chunk,
            final(self)@.ip == old(self)@.ip,
            match step(op, old(self)@.chunk->0.constants, old(self)@.stack) {
                Step::Next(stack) => r is Ok && final(self)@.stack == stack,
                Step::Fault(message) => r is Err && r->Err_0.message@ == message && r->Err_0.line
                    == old(self)@.chunk->0.lines[old(self)@.ip - 1] && final(self)@.stack.len()
                    == 0,
                _ => false,
            },
    {
        match (self.peek(0), self.peek(1)) {
            (Value::Number(_), Value::Number(_)) => {
                let b = self.pop();
                let a = self.pop();
                let result = match op {
                    OpCode::Add => a + b,
                    OpCode::Sub => a - b,
                    OpCode::Mul => a * b,
                    OpCode::Div => a / b,
                    OpCode::Greater => Value::Bool(a > b),
                    _ => Value::Bool(a < b),
                };
                self.push(result);
                Ok(())
            },
            _ => Err(self.runtime_error("Operands must be numbers")),
        }
    }

    fn push(&mut self, value: Value)
        ensures
            final(self)@.stack == old(self)@.stack.push(value),
            final(self)@.chunk == old(self)@.chunk,
            final(self)@.ip == old(self)@.ip,
    {
        self.stack.push(value);
    }

    fn pop(&mut self) -> (value: Value)
        requires
            old(self)@.stack.len() >= 1,
        ensures
            value == old(self)@.stack.last(),
            final(self)@.stack == old(self)@.stack.take(old(self)@.stack.len() - 1),
            final(self)@.chunk == old(self)@.chunk,
            final(self)@.ip == old(self)@.ip,
    {
        let value = self.stack.pop().unwrap();
        assert(self.stack@ =~= old(self).stack@.take(old(self).stack@.len() - 1));
        value
    }

    /// The value `distance` places below the top of the stack.
    fn peek(&self, distance: usize) -> (value: Value)
        requires
            distance < self@.stack.len(),
        ensures
            value == self@.stack[self@.stack.len() - 1 - distance],
    {
        self.stack[self.stack.len() - 1 - distance]
    }

    /// The loaded chunk.
    pub fn chunk(&self) -> (chunk: &Chunk)
        requires
            self@.chunk is Some,
        ensures
            Some(chunk@) == self@.chunk,
    {
        self.chunk.as_ref().unwrap()
    }
}

} // verus!
