//! The state of the machine and its single step.

use vstd::prelude::*;
use crate::instruction::{Command, Instruction, PushArgument};
use crate::program::{Program, ProgramModel};

verus! {

/// Mathematical model of a [`MachineState`].
pub struct Machine {
    pub program_counter: nat,
    pub tape_head: nat,
    pub tape: Seq<i32>,
    pub stack: Seq<i32>,
    pub terminated: bool,
}

/// The state of the machine between two instructions.
#[derive(Debug, Clone)]
pub struct MachineState {
    pub program_counter: usize,
    pub tape_head: usize,
    pub tape: Vec<i32>,
    pub stack: Vec<i32>,
    pub terminated: bool,
}

impl View for MachineState {
    type V = Machine;

    open spec fn view(&self) -> Machine {
        Machine {
            program_counter: self.program_counter as nat,
            tape_head: self.tape_head as nat,
            tape: self.tape@,
            stack: self.stack@,
            terminated: self.terminated,
        }
    }
}

impl Machine {
    /// The machine before its first instruction: at address 0, with an empty tape
    /// and an empty stack.
    pub open spec fn fresh() -> Machine {
        Machine {
            program_counter: 0,
            tape_head: 0,
            tape: Seq::empty(),
            stack: Seq::empty(),
            terminated: false,
        }
    }
}

impl Default for MachineState {
    fn default() -> (state: MachineState)
        ensures
            state@ == Machine::fresh(),
    {
        MachineState {
            program_counter: 0,
            tape_head: 0,
            tape: Vec::new(),
            stack: Vec::new(),
            terminated: false,
        }
    }
}

/// Why a step was refused.
#[derive(Debug, Clone, PartialEq)]
pub enum ExecutionError {
    /// The program has run to its end.
    Terminated,
    /// The program counter is not the address of an instruction.
    InvalidLine(usize),
    /// A label was referred to that the table does not hold.
    InvalidLabel(String),
    /// An instruction needed more values than the stack holds.
    StackUnderflow,
    /// The tape head was moved left of position 0.
    TapeHeadUnderflow,
}

/// Mathematical model of an [`ExecutionError`].
pub enum Failure {
    Terminated,
    InvalidLine(usize),
    InvalidLabel(Seq<char>),
    StackUnderflow,
    TapeHeadUnderflow,
}

impl View for ExecutionError {
    type V = Failure;

    open spec fn view(&self) -> Failure {
        match *self {
            ExecutionError::Terminated => Failure::Terminated,
            ExecutionError::InvalidLine(line) => Failure::InvalidLine(line),
            ExecutionError::InvalidLabel(name) => Failure::InvalidLabel(name@),
            ExecutionError::StackUnderflow => Failure::StackUnderflow,
            ExecutionError::TapeHeadUnderflow => Failure::TapeHeadUnderflow,
        }
    }
}

/// A condition under which an instruction has no result at all: the run cannot go on.
#[derive(Debug, Clone, Copy, PartialEq, Eq, Structural)]
pub enum Fault {
    /// `div` or `mod` with a zero divisor.
    DivisionByZero,
    /// An arithmetic result that is not a 32-bit signed integer.
    Overflow,
    /// `read` when the input has ended.
    EndOfInput,
    /// A tape position beyond the largest index.
    TapeLimit,
}

/// What one step of the machine comes to.
pub enum Outcome {
    /// The instruction was executed: the state after it, and the byte that it printed.
    Stepped { machine: Machine, output: Option<u8> },
    /// The step was refused with an error.
    Failed(Failure),
    /// The instruction has no result.
    Faulted(Fault),
}

/// The quotient of `a` by `b`, rounded toward zero.
pub open spec fn truncated_quotient(a: int, b: int) -> int {
    if a >= 0 {
        if b > 0 {
            a / b
        } else {
            -(a / (-b))
        }
    } else {
        if b > 0 {
            -((-a) / b)
        } else {
            (-a) / (-b)
        }
    }
}

/// The remainder that goes with [`truncated_quotient`]: it has the sign of `a`.
pub open spec fn truncated_remainder(a: int, b: int) -> int {
    a - b * truncated_quotient(a, b)
}

/// Whether `value` is a 32-bit signed integer.
pub open spec fn fits(value: int) -> bool {
    i32::MIN <= value <= i32::MAX
}

/// The low 8 bits of `value`.
pub open spec fn low_byte(value: i32) -> u8 {
    (value as int % 256) as u8
}

/// The integer that stands for position `position` on the stack: its low 32 bits,
/// read as a signed number.
pub open spec fn position_value(position: usize) -> i32 {
    let low = position as int % 0x1_0000_0000;
    if low < 0x8000_0000 {
        low as i32
    } else {
        (low - 0x1_0000_0000) as i32
    }
}

/// The address that a jump to `target` leads to. A negative target leads beyond
/// every program: it counts down from one past the largest address.
pub open spec fn jump_address(target: i32) -> nat {
    if target >= 0 {
        target as nat
    } else {
        (usize::MAX + 1 + target) as nat
    }
}

/// 1 for true, 0 for false.
pub open spec fn truth(b: bool) -> i32 {
    if b {
        1
    } else {
        0
    }
}

/// The tape made long enough to hold position `head`, with zeros in the new cells.
pub open spec fn grown(tape: Seq<i32>, head: nat) -> Seq<i32> {
    if head < tape.len() {
        tape
    } else {
        tape + Seq::new((head + 1 - tape.len()) as nat, |i: int| 0i32)
    }
}

/// The result of a two-operand instruction on left operand `a` and right operand `b`.
/// `None` for an instruction that is none of these.
pub open spec fn binary(instruction: Instruction, a: i32, b: i32) -> Option<Result<i32, Fault>> {
    match instruction {
        Instruction::Equal => Some(Ok(truth(a == b))),
        Instruction::GreaterThan => Some(Ok(truth(a > b))),
        Instruction::LessThan => Some(Ok(truth(a < b))),
        Instruction::Add => Some(
            if fits(a + b) {
                Ok((a + b) as i32)
            } else {
                Err(Fault::Overflow)
            },
        ),
        Instruction::Sub => Some(
            if fits(a - b) {
                Ok((a - b) as i32)
            } else {
                Err(Fault::Overflow)
            },
        ),
        Instruction::Mult => Some(
            if fits(a * b) {
                Ok((a * b) as i32)
            } else {
                Err(Fault::Overflow)
            },
        ),
        Instruction::Div => Some(
            if b == 0 {
                Err(Fault::DivisionByZero)
            } else if !fits(truncated_quotient(a as int, b as int)) {
                Err(Fault::Overflow)
            } else {
                Ok(truncated_quotient(a as int, b as int) as i32)
            },
        ),
        Instruction::Mod => Some(
            if b == 0 {
                Err(Fault::DivisionByZero)
            } else if !fits(truncated_quotient(a as int, b as int)) {
                Err(Fault::Overflow)
            } else {
                Ok(truncated_remainder(a as int, b as int) as i32)
            },
        ),
        _ => None,
    }
}

/// How many values an instruction takes from the stack.
pub open spec fn operands(instruction: Instruction) -> nat {
    match instruction {
        Instruction::Pop
        | Instruction::Dup
        | Instruction::Delete
        | Instruction::LogicalNot
        | Instruction::PrintByte
        | Instruction::Jump => 1,
        Instruction::Equal
        | Instruction::GreaterThan
        | Instruction::LessThan
        | Instruction::Add
        | Instruction::Sub
        | Instruction::Mult
        | Instruction::Div
        | Instruction::Mod
        | Instruction::JumpIfNonzero => 2,
        _ => 0,
    }
}

/// The effect of `instruction` on a machine whose program counter already points to
/// the next address. `input` is the next byte of the input, if there is one.
///
/// Of two operands the upper one on the stack is the right-hand one. A cell of the
/// tape that was never written reads as 0.
pub open spec fn effect(
    labels: Map<Seq<char>, usize>,
    instruction: Instruction,
    machine: Machine,
    input: Option<u8>,
) -> Outcome {
    let stack = machine.stack;
    let depth = stack.len() as int;
    if depth < operands(instruction) {
        Outcome::Failed(Failure::StackUnderflow)
    } else if instruction == Instruction::Pop && machine.tape_head >= machine.tape.len()
        && machine.tape_head >= usize::MAX {
        Outcome::Faulted(Fault::TapeLimit)
    } else {
        match instruction {
            Instruction::Left => if machine.tape_head == 0 {
                Outcome::Failed(Failure::TapeHeadUnderflow)
            } else {
                Outcome::Stepped {
                    machine: Machine { tape_head: (machine.tape_head - 1) as nat, ..machine },
                    output: None,
                }
            },
            Instruction::Right => if machine.tape_head >= usize::MAX {
                Outcome::Faulted(Fault::TapeLimit)
            } else {
                Outcome::Stepped {
                    machine: Machine { tape_head: machine.tape_head + 1, ..machine },
                    output: None,
                }
            },
            Instruction::PushTapeCell => Outcome::Stepped {
                machine: Machine {
                    stack: stack.push(
                        if machine.tape_head < machine.tape.len() {
                            machine.tape[machine.tape_head as int]
                        } else {
                            0
                        },
                    ),
                    ..machine
                },
                output: None,
            },
            Instruction::PushConst(c) => Outcome::Stepped {
                machine: Machine { stack: stack.push(c), ..machine },
                output: None,
            },
            Instruction::PushLabel(name) => if labels.contains_key(name) {
                Outcome::Stepped {
                    machine: Machine { stack: stack.push(position_value(labels[name])), ..machine },
                    output: None,
                }
            } else {
                Outcome::Failed(Failure::InvalidLabel(name))
            },
            Instruction::Pop => Outcome::Stepped {
                machine: Machine {
                    tape: grown(machine.tape, machine.tape_head).update(
                        machine.tape_head as int,
                        stack.last(),
                    ),
                    stack: stack.drop_last(),
                    ..machine
                },
                output: None,
            },
            Instruction::Dup => Outcome::Stepped {
                machine: Machine { stack: stack.push(stack.last()), ..machine },
                output: None,
            },
            Instruction::Delete => Outcome::Stepped {
                machine: Machine { stack: stack.drop_last(), ..machine },
                output: None,
            },
            Instruction::LogicalNot => Outcome::Stepped {
                machine: Machine {
                    stack: stack.drop_last().push(truth(stack.last() == 0)),
                    ..machine
                },
                output: None,
            },
            Instruction::ReadByte => match input {
                Some(byte) => Outcome::Stepped {
                    machine: Machine { stack: stack.push(byte as i32), ..machine },
                    output: None,
                },
                None => Outcome::Faulted(Fault::EndOfInput),
            },
            Instruction::PrintByte => Outcome::Stepped {
                machine: Machine { stack: stack.drop_last(), ..machine },
                output: Some(low_byte(stack.last())),
            },
            Instruction::Jump => Outcome::Stepped {
                machine: Machine {
                    program_counter: jump_address(stack.last()),
                    stack: stack.drop_last(),
                    ..machine
                },
                output: None,
            },
            Instruction::JumpIfNonzero => Outcome::Stepped {
                machine: Machine {
                    program_counter: if stack[depth - 2] != 0 {
                        jump_address(stack.last())
                    } else {
                        machine.program_counter
                    },
                    stack: stack.take(depth - 2),
                    ..machine
                },
                output: None,
            },
            Instruction::LabelDecl(_) | Instruction::NoOp => Outcome::Stepped {
                machine,
                output: None,
            },
            _ => match binary(instruction, stack[depth - 2], stack.last()) {
                Some(Ok(value)) => Outcome::Stepped {
                    machine: Machine { stack: stack.take(depth - 2).push(value), ..machine },
                    output: None,
                },
                Some(Err(fault)) => Outcome::Faulted(fault),
                None => Outcome::Stepped { machine, output: None },
            },
        }
    }
}

/// One step of the machine on `program`.
///
/// A terminated machine goes on only if its program counter is an address of the
/// program. The program counter moves to the next address before the instruction
/// takes effect, and the machine is terminated after the step exactly if the
/// program counter is then no address of the program.
pub open spec fn step(program: ProgramModel, machine: Machine, input: Option<u8>) -> Outcome {
    let length = program.lines.len();
    if machine.program_counter >= length {
        if machine.terminated {
            Outcome::Failed(Failure::Terminated)
        } else {
            Outcome::Failed(Failure::InvalidLine(machine.program_counter as usize))
        }
    } else {
        let advanced = Machine {
            program_counter: machine.program_counter + 1,
            terminated: false,
            ..machine
        };
        match effect(
            program.labels,
            program.lines[machine.program_counter as int],
            advanced,
            input,
        ) {
            Outcome::Stepped { machine: after, output } => Outcome::Stepped {
                machine: Machine { terminated: after.program_counter >= length, ..after },
                output,
            },
            other => other,
        }
    }
}

/// Whether `result` is what `outcome` asks for: the state and the byte of a step that
/// was executed, or the error of one that was refused.
pub open spec fn reports(
    result: Result<(MachineState, Option<u8>), ExecutionError>,
    outcome: Outcome,
) -> bool {
    match outcome {
        Outcome::Stepped { machine, output } => result matches Ok(next) && next.0@ == machine
            && next.1 == output,
        Outcome::Failed(failure) => result matches Err(error) && error@ == failure,
        Outcome::Faulted(_) => true,
    }
}

/// Division with remainder on a non-negative number and a positive one.
proof fn lemma_magnitudes(x: int, y: int)
    requires
        0 <= x,
        0 < y,
    ensures
        0 <= x / y <= x,
        0 <= x % y < y,
        x == y * (x / y) + x % y,
{
    vstd::arithmetic::div_mod::lemma_fundamental_div_mod(x, y);
    vstd::arithmetic::div_mod::lemma_div_pos_is_pos(x, y);
    vstd::arithmetic::div_mod::lemma_mod_bound(x, y);
    assert(x / y <= x) by (nonlinear_arith)
        requires
            0 <= x,
            0 < y,
            x == y * (x / y) + x % y,
            0 <= x % y,
            0 <= x / y,
    ;
}

/// The magnitudes of two operands, the second one not zero.
fn magnitudes(a: i32, b: i32) -> (m: (i64, i64))
    requires
        b != 0,
    ensures
        m.0 == if a >= 0 {
            a as int
        } else {
            -(a as int)
        },
        m.1 == if b > 0 {
            b as int
        } else {
            -(b as int)
        },
{
    let x: i64 = if a >= 0 {
        a as i64
    } else {
        -(a as i64)
    };
    let y: i64 = if b > 0 {
        b as i64
    } else {
        -(b as i64)
    };
    (x, y)
}

/// The quotient rounded toward zero, computed on the magnitudes.
fn quotient(a: i32, b: i32) -> (q: i32)
    requires
        b != 0,
        fits(truncated_quotient(a as int, b as int)),
    ensures
        q == truncated_quotient(a as int, b as int),
{
    let (x, y) = magnitudes(a, b);
    proof {
        lemma_magnitudes(x as int, y as int);
    }
    let size: i64 = x / y;
    if (a >= 0) == (b > 0) {
        size as i32
    } else {
        (-size) as i32
    }
}

/// The remainder with the sign of `a`, computed on the magnitudes.
fn remainder(a: i32, b: i32) -> (r: i32)
    requires
        b != 0,
        fits(truncated_quotient(a as int, b as int)),
    ensures
        r == truncated_remainder(a as int, b as int),
{
    let (x, y) = magnitudes(a, b);
    proof {
        lemma_magnitudes(x as int, y as int);
        let q = x as int / y as int;
        assert(a as int - (b as int) * truncated_quotient(a as int, b as int) == if a >= 0 {
            x as int % y as int
        } else {
            -(x as int % y as int)
        }) by (nonlinear_arith)
            requires
                x as int == (y as int) * q + x as int % y as int,
                x == if a >= 0 {
                    a as int
                } else {
                    -(a as int)
                },
                y == if b > 0 {
                    b as int
                } else {
                    -(b as int)
                },
                truncated_quotient(a as int, b as int) == if (a >= 0) == (b > 0) {
                    q
                } else {
                    -q
                },
        ;
    }
    let size: i64 = x % y;
    if a >= 0 {
        size as i32
    } else {
        (-size) as i32
    }
}

/// The low 8 bits of `value`.
fn low_byte_of(value: i32) -> (byte: u8)
    ensures
        byte == low_byte(value),
{
    let shifted: i64 = value as i64 + 0x8000_0000;
    proof {
        vstd::arithmetic::div_mod::lemma_mod_multiples_vanish(0x80_0000, value as int, 256);
        vstd::arithmetic::div_mod::lemma_mod_bound(value as int, 256);
    }
    (shifted % 256) as u8
}

/// The integer that stands for `position` on the stack.
pub(crate) fn position_value_of(position: usize) -> (value: i32)
    ensures
        value == position_value(position),
{
    let low: u64 = (position as u64) % 0x1_0000_0000;
    if low < 0x8000_0000 {
        low as i32
    } else {
        (low as i64 - 0x1_0000_0000) as i32
    }
}

/// The address that a jump to `target` leads to.
fn jump_address_of(target: i32) -> (address: usize)
    ensures
        address == jump_address(target),
{
    if target >= 0 {
        target as usize
    } else {
        let below: i64 = -(target as i64) - 1;
        usize::MAX - (below as usize)
    }
}

/// The value that a two-operand command leaves for left operand `a` and right
/// operand `b`.
fn combine(command: &Command, a: i32, b: i32) -> (value: i32)
    requires
        binary(command@, a, b) matches Some(Ok(_)),
    ensures
        binary(command@, a, b) == Some(Ok::<i32, Fault>(value)),
{
    match command {
        Command::Eq => if a == b {
            1
        } else {
            0
        },
        Command::Gt => if a > b {
            1
        } else {
            0
        },
        Command::Lt => if a < b {
            1
        } else {
            0
        },
        Command::Add => a + b,
        Command::Sub => a - b,
        Command::Mult => a * b,
        Command::Div => quotient(a, b),
        Command::Mod => remainder(a, b),
        _ => 0,
    }
}

/// Executes the command at the program counter.
///
/// `input` is the next byte of the input, `None` at its end; only `read` looks at
/// it, and takes it. The result holds the state after the command and the byte that
/// it printed, if it printed one.
pub fn execute_command(program: &Program, machine: MachineState, input: Option<u8>) -> (result:
    Result<(MachineState, Option<u8>), ExecutionError>)
    requires
        !(step(program@, machine@, input) is Faulted),
    ensures
        reports(result, step(program@, machine@, input)),
{
    let mut machine = machine;
    let length = program.lines.len();
    if machine.program_counter >= length {
        if machine.terminated {
            return Err(ExecutionError::Terminated);
        } else {
            return Err(ExecutionError::InvalidLine(machine.program_counter));
        }
    }
    let command = &program.lines[machine.program_counter];
    machine.terminated = false;
    machine.program_counter = machine.program_counter + 1;
    let ghost advanced = machine@;
    let ghost expected = effect(program@.labels, command@, advanced, input);
    assert(!(expected is Faulted));
    let depth = machine.stack.len();
    let mut output: Option<u8> = None;
    match command {
        Command::Left => {
            if machine.tape_head == 0 {
                return Err(ExecutionError::TapeHeadUnderflow);
            }
            machine.tape_head = machine.tape_head - 1;
        },
        Command::Right => {
            machine.tape_head = machine.tape_head + 1;
        },
        Command::PushT => {
            let cell = if machine.tape_head < machine.tape.len() {
                machine.tape[machine.tape_head]
            } else {
                0
            };
            machine.stack.push(cell);
        },
        Command::Push(PushArgument::Const(c)) => {
            machine.stack.push(*c);
        },
        Command::Push(PushArgument::Label(name)) => {
            match program.labels.get(name) {
                Some(position) => {
                    machine.stack.push(position_value_of(position));
                },
                None => {
                    return Err(ExecutionError::InvalidLabel(name.clone()));
                },
            }
        },
        Command::Pop => {
            if depth < 1 {
                return Err(ExecutionError::StackUnderflow);
            }
            assert(machine.tape.len() <= machine.tape_head ==> machine.tape_head < usize::MAX);
            while machine.tape.len() <= machine.tape_head
                invariant
                    machine.tape.len() <= machine.tape_head ==> machine.tape_head < usize::MAX,
                    machine.tape_head == advanced.tape_head,
                    machine.stack@ == advanced.stack,
                    machine.program_counter == advanced.program_counter,
                    machine.terminated == advanced.terminated,
                    advanced.tape.len() <= machine.tape.len(),
                    machine.tape.len() > advanced.tape.len() ==> machine.tape.len()
                        <= machine.tape_head + 1,
                    machine.tape@ == advanced.tape + Seq::new(
                        (machine.tape.len() - advanced.tape.len()) as nat,
                        |i: int| 0i32,
                    ),
                decreases machine.tape_head + 1 - machine.tape.len(),
            {
                machine.tape.push(0);
                assert(machine.tape@ =~= advanced.tape + Seq::new(
                    (machine.tape.len() - advanced.tape.len()) as nat,
                    |i: int| 0i32,
                ));
            }
            assert(machine.tape@ =~= grown(advanced.tape, advanced.tape_head));
            let value = machine.stack[depth - 1];
            machine.stack.pop();
            machine.tape.set(machine.tape_head, value);
        },
        Command::Dup => {
            if depth < 1 {
                return Err(ExecutionError::StackUnderflow);
            }
            let top = machine.stack[depth - 1];
            machine.stack.push(top);
        },
        Command::Del => {
            if depth < 1 {
                return Err(ExecutionError::StackUnderflow);
            }
            machine.stack.pop();
        },
        Command::Not => {
            match machine.stack.pop() {
                Some(value) => {
                    machine.stack.push(
                        if value == 0 {
                            1
                        } else {
                            0
                        },
                    );
                },
                None => {
                    return Err(ExecutionError::StackUnderflow);
                },
            }
        },
        Command::Read => {
            match input {
                Some(byte) => {
                    machine.stack.push(byte as i32);
                },
                None => {},
            }
        },
        Command::Print => {
            match machine.stack.pop() {
                Some(value) => {
                    output = Some(low_byte_of(value));
                },
                None => {
                    return Err(ExecutionError::StackUnderflow);
                },
            }
        },
        Command::Jmp => {
            match machine.stack.pop() {
                Some(target) => {
                    machine.program_counter = jump_address_of(target);
                },
                None => {
                    return Err(ExecutionError::StackUnderflow);
                },
            }
        },
        Command::JmpC => {
            if depth < 2 {
                return Err(ExecutionError::StackUnderflow);
            }
            let target = machine.stack[depth - 1];
            let condition = machine.stack[depth - 2];
            machine.stack.truncate(depth - 2);
            if condition != 0 {
                machine.program_counter = jump_address_of(target);
            }
        },
        Command::Label(_) | Command::Null => {},
        _ => {
            if depth < 2 {
                return Err(ExecutionError::StackUnderflow);
            }
            let right = machine.stack[depth - 1];
            let left = machine.stack[depth - 2];
            machine.stack.truncate(depth - 2);
            machine.stack.push(combine(command, left, right));
        },
    }
    proof {
        assert(expected is Stepped);
        assert(machine.stack@ =~= expected->machine.stack);
        assert(machine.tape@ =~= expected->machine.tape);
    }
    machine.terminated = machine.program_counter >= length;
    Ok((machine, output))
}

/// Whether the machine is about to execute a `read`, which takes a byte of the input.
pub open spec fn awaits_input(program: ProgramModel, machine: Machine) -> bool {
    machine.program_counter < program.lines.len()
        && program.lines[machine.program_counter as int] == Instruction::ReadByte
}

/// Whether the next step of `machine` takes a byte of the input.
pub fn reads_next(program: &Program, machine: &MachineState) -> (reads: bool)
    ensures
        reads == awaits_input(program@, machine@),
{
    if machine.program_counter < program.lines.len() {
        match &program.lines[machine.program_counter] {
            Command::Read => true,
            _ => false,
        }
    } else {
        false
    }
}

/// Of 32-bit operands the quotient is one too, but for the least of them divided
/// by -1.
pub proof fn lemma_quotient_fits(a: int, b: int)
    requires
        fits(a),
        fits(b),
        b != 0,
    ensures
        fits(truncated_quotient(a, b)) <==> !(a == i32::MIN && b == -1),
{
    let x = if a >= 0 {
        a
    } else {
        -a
    };
    let y = if b > 0 {
        b
    } else {
        -b
    };
    lemma_magnitudes(x, y);
    if y == 1 {
        assert(x / y == x) by (nonlinear_arith)
            requires
                y == 1,
                x == y * (x / y) + x % y,
                0 <= x % y < y,
        ;
    } else {
        assert(x / y < 0x8000_0000) by (nonlinear_arith)
            requires
                y >= 2,
                0 <= x <= 0x8000_0000,
                x == y * (x / y) + x % y,
                0 <= x % y,
                0 <= x / y,
        ;
    }
}

/// The fault that an arithmetic command runs into on left operand `a` and right
/// operand `b`, if any.
fn arithmetic_fault(command: &Command, a: i32, b: i32) -> (fault: Option<Fault>)
    requires
        command@ is Add || command@ is Sub || command@ is Mult || command@ is Div
            || command@ is Mod,
    ensures
        fault == match binary(command@, a, b) {
            Some(Err(fault)) => Some(fault),
            _ => None,
        },
{
    match command {
        Command::Add => if a.checked_add(b).is_none() {
            Some(Fault::Overflow)
        } else {
            None
        },
        Command::Sub => if a.checked_sub(b).is_none() {
            Some(Fault::Overflow)
        } else {
            None
        },
        Command::Mult => if a.checked_mul(b).is_none() {
            Some(Fault::Overflow)
        } else {
            None
        },
        _ => if b == 0 {
            Some(Fault::DivisionByZero)
        } else if a == i32::MIN && b == -1 {
            Some(Fault::Overflow)
        } else {
            proof {
                lemma_quotient_fits(a as int, b as int);
            }
            None
        },
    }
}

/// The fault that the next step of `machine` would run into, if any.
pub fn pending_fault(program: &Program, machine: &MachineState, input: Option<u8>) -> (fault:
    Option<Fault>)
    ensures
        fault == match step(program@, machine@, input) {
            Outcome::Faulted(fault) => Some(fault),
            _ => None,
        },
{
    if machine.program_counter >= program.lines.len() {
        return None;
    }
    let command = &program.lines[machine.program_counter];
    let depth = machine.stack.len();
    match command {
        Command::Right => if machine.tape_head == usize::MAX {
            Some(Fault::TapeLimit)
        } else {
            None
        },
        Command::Pop => if depth >= 1 && machine.tape_head >= machine.tape.len()
            && machine.tape_head == usize::MAX {
            Some(Fault::TapeLimit)
        } else {
            None
        },
        Command::Read => if input.is_none() {
            Some(Fault::EndOfInput)
        } else {
            None
        },
        Command::Add | Command::Sub | Command::Mult | Command::Div | Command::Mod => {
            if depth < 2 {
                None
            } else {
                arithmetic_fault(command, machine.stack[depth - 2], machine.stack[depth - 1])
            }
        },
        _ => None,
    }
}

/// The error that the next step of `machine` would be refused with, if any. It does
/// not depend on the input.
pub fn pending_error(program: &Program, machine: &MachineState) -> (error: Option<ExecutionError>)
    ensures
        forall|input: Option<u8>|
            match #[trigger] step(program@, machine@, input) {
                Outcome::Failed(failure) => error matches Some(found) && found@ == failure,
                _ => error is None,
            },
{
    if machine.program_counter >= program.lines.len() {
        return if machine.terminated {
            Some(ExecutionError::Terminated)
        } else {
            Some(ExecutionError::InvalidLine(machine.program_counter))
        };
    }
    let command = &program.lines[machine.program_counter];
    let depth = machine.stack.len();
    let needed: usize = match command {
        Command::Pop | Command::Dup | Command::Del | Command::Not | Command::Print | Command::Jmp => 1,
        Command::Eq
        | Command::Gt
        | Command::Lt
        | Command::Add
        | Command::Sub
        | Command::Mult
        | Command::Div
        | Command::Mod
        | Command::JmpC => 2,
        _ => 0,
    };
    assert(needed == operands(command@));
    if depth < needed {
        return Some(ExecutionError::StackUnderflow);
    }
    match command {
        Command::Left => if machine.tape_head == 0 {
            Some(ExecutionError::TapeHeadUnderflow)
        } else {
            None
        },
        Command::Push(PushArgument::Label(name)) => if program.labels.get(name).is_none() {
            Some(ExecutionError::InvalidLabel(name.clone()))
        } else {
            None
        },
        _ => None,
    }
}

} // verus!
