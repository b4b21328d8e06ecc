//! Whole runs of the machine: the report of why a run ends, the step of a run that
//! goes on, and what a run on a given input comes to.

use vstd::prelude::*;
use crate::instruction::{Command, Instruction};
use crate::machine::{
    awaits_input, execute_command, pending_error, pending_fault, step, ExecutionError, Failure,
    Fault, Machine, MachineState, Outcome,
};
use crate::program::{Program, ProgramModel};

verus! {

/// Why a run was given up.
#[derive(Debug, Clone, PartialEq)]
pub enum Crash {
    /// The step was refused.
    Error(ExecutionError),
    /// The instruction has no result.
    Fault(Fault),
}

/// Mathematical model of a [`Crash`].
pub enum Cause {
    Error(Failure),
    Fault(Fault),
}

impl View for Crash {
    type V = Cause;

    open spec fn view(&self) -> Cause {
        match *self {
            Crash::Error(error) => Cause::Error(error@),
            Crash::Fault(fault) => Cause::Fault(fault),
        }
    }
}

/// What is known of a run that was given up: the cause, the state before the step
/// that failed, and the command that the program counter pointed to, if any.
#[derive(Debug, Clone)]
pub struct CrashReport {
    pub cause: Crash,
    pub state: MachineState,
    pub command: Option<Command>,
}

/// The instruction at the program counter, if that is an address of the program.
pub open spec fn current(program: ProgramModel, machine: Machine) -> Option<Instruction> {
    if machine.program_counter < program.lines.len() {
        Some(program.lines[machine.program_counter as int])
    } else {
        None
    }
}

/// Whether `report` is what `outcome` asks for on `machine`: none for a step that is
/// executed, and else the cause, the unchanged state and the current instruction.
pub open spec fn accounts(
    report: Option<CrashReport>,
    program: ProgramModel,
    machine: Machine,
    outcome: Outcome,
) -> bool {
    match outcome {
        Outcome::Stepped { .. } => report is None,
        Outcome::Failed(failure) => report matches Some(found) && found.cause@ == Cause::Error(
            failure,
        ) && found.state@ == machine && view_of(found.command) == current(program, machine),
        Outcome::Faulted(fault) => report matches Some(found) && found.cause@ == Cause::Fault(
            fault,
        ) && found.state@ == machine && view_of(found.command) == current(program, machine),
    }
}

/// The model of a command that may be absent.
pub open spec fn view_of(command: Option<Command>) -> Option<Instruction> {
    match command {
        Some(command) => Some(command@),
        None => None,
    }
}

/// A copy of `machine`.
fn snapshot(machine: &MachineState) -> (copy: MachineState)
    ensures
        copy@ == machine@,
{
    let copy = MachineState {
        program_counter: machine.program_counter,
        tape_head: machine.tape_head,
        tape: machine.tape.clone(),
        stack: machine.stack.clone(),
        terminated: machine.terminated,
    };
    assert(copy.tape@ =~= machine.tape@);
    assert(copy.stack@ =~= machine.stack@);
    copy
}

/// A copy of the command at the program counter, if there is one.
fn fetch(program: &Program, machine: &MachineState) -> (command: Option<Command>)
    ensures
        view_of(command) == current(program@, machine@),
{
    if machine.program_counter < program.lines.len() {
        Some(program.lines[machine.program_counter].duplicate())
    } else {
        None
    }
}

/// Why the run ends at the next step of `machine`, if it does: the report of a step
/// that would be refused or has no result, and none where the step can be taken.
///
/// `input` is the next byte of the input, `None` at its end.
pub fn crash_report(program: &Program, machine: &MachineState, input: Option<u8>) -> (report:
    Option<CrashReport>)
    ensures
        accounts(report, program@, machine@, step(program@, machine@, input)),
{
    let cause = match pending_fault(program, machine, input) {
        Some(fault) => Some(Crash::Fault(fault)),
        None => match pending_error(program, machine) {
            Some(error) => Some(Crash::Error(error)),
            None => None,
        },
    };
    match cause {
        Some(cause) => Some(
            CrashReport { cause, state: snapshot(machine), command: fetch(program, machine) },
        ),
        None => None,
    }
}

/// Executes the command at the program counter, in a run that does not end there:
/// the step must be one that [`crash_report`] has nothing to report of.
///
/// `input` is the next byte of the input, `None` at its end. The result holds the
/// state after the command and the byte that it printed, if it printed one.
pub fn execute_or_crash(program: &Program, machine: MachineState, input: Option<u8>) -> (next: (
    MachineState,
    Option<u8>,
))
    requires
        step(program@, machine@, input) is Stepped,
    ensures
        step(program@, machine@, input) == (Outcome::Stepped {
            machine: next.0@,
            output: next.1,
        }),
{
    execute_command(program, machine, input).unwrap()
}

/// How a run stands.
pub enum Status {
    /// The machine can take another step.
    Running,
    /// The program counter has left the program.
    Terminated,
    /// The run was given up.
    Crashed(Cause),
}

/// A run so far: the state of the machine, how many bytes of the input it has taken,
/// the bytes it has printed, and how it stands.
pub struct Run {
    pub machine: Machine,
    pub consumed: nat,
    pub output: Seq<u8>,
    pub status: Status,
}

/// The byte of `input` that a run which has taken `consumed` bytes sees next.
pub open spec fn next_input(input: Seq<u8>, consumed: nat) -> Option<u8> {
    if consumed < input.len() {
        Some(input[consumed as int])
    } else {
        None
    }
}

/// `output` with the byte that a step printed, if it printed one.
pub open spec fn printed(output: Seq<u8>, byte: Option<u8>) -> Seq<u8> {
    match byte {
        Some(byte) => output.push(byte),
        None => output,
    }
}

/// The run of `program` from `machine` on, for at most `fuel` steps: a step is taken
/// as long as the machine is not terminated, and the first step that fails ends the
/// run with the state before it.
pub open spec fn run_from(
    program: ProgramModel,
    machine: Machine,
    input: Seq<u8>,
    consumed: nat,
    output: Seq<u8>,
    fuel: nat,
) -> Run
    decreases fuel,
{
    if machine.terminated {
        Run { machine, consumed, output, status: Status::Terminated }
    } else if fuel == 0 {
        Run { machine, consumed, output, status: Status::Running }
    } else {
        match step(program, machine, next_input(input, consumed)) {
            Outcome::Stepped { machine: after, output: byte } => run_from(
                program,
                after,
                input,
                if awaits_input(program, machine) {
                    consumed + 1
                } else {
                    consumed
                },
                printed(output, byte),
                (fuel - 1) as nat,
            ),
            Outcome::Failed(failure) => Run {
                machine,
                consumed,
                output,
                status: Status::Crashed(Cause::Error(failure)),
            },
            Outcome::Faulted(fault) => Run {
                machine,
                consumed,
                output,
                status: Status::Crashed(Cause::Fault(fault)),
            },
        }
    }
}

/// The run of `program` on `input` from the fresh machine, for at most `fuel` steps.
pub open spec fn run(program: ProgramModel, input: Seq<u8>, fuel: nat) -> Run {
    run_from(program, Machine::fresh(), input, 0, Seq::empty(), fuel)
}

} // verus!
