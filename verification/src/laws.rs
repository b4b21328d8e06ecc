//! What holds of every step of the machine: the rounding of division, the discipline
//! of the stack and of the tape, the resolution of labels, and termination.

use vstd::prelude::*;
use crate::driver::{run_from, Run, Status};
use crate::instruction::Instruction;
use crate::machine::{
    binary, effect, fits, operands, position_value, step, truncated_quotient, truncated_remainder,
    Failure, Fault, Machine, Outcome,
};
use crate::program::{label_table, ProgramModel};

verus! {

/// Division rounds toward zero: the quotient and the remainder of `a` by `b` make up
/// `a`, the remainder is smaller in magnitude than `b`, and it is zero or has the
/// sign of `a`. `div` and `mod` leave these two values wherever they are 32-bit
/// integers.
pub proof fn law_truncating_division(a: i32, b: i32)
    requires
        b != 0,
    ensures
        a == b * truncated_quotient(a as int, b as int) + truncated_remainder(a as int, b as int),
        -b < truncated_remainder(a as int, b as int) < b || b < truncated_remainder(
            a as int,
            b as int,
        ) < -b,
        a >= 0 ==> truncated_remainder(a as int, b as int) >= 0,
        a <= 0 ==> truncated_remainder(a as int, b as int) <= 0,
        fits(truncated_quotient(a as int, b as int)) ==> binary(Instruction::Div, a, b) == Some(
            Ok::<i32, Fault>(truncated_quotient(a as int, b as int) as i32),
        ) && binary(Instruction::Mod, a, b) == Some(
            Ok::<i32, Fault>(truncated_remainder(a as int, b as int) as i32),
        ),
{
    let x: int = if a >= 0 {
        a as int
    } else {
        -(a as int)
    };
    let y: int = if b > 0 {
        b as int
    } else {
        -(b as int)
    };
    vstd::arithmetic::div_mod::lemma_fundamental_div_mod(x, y);
    vstd::arithmetic::div_mod::lemma_mod_bound(x, y);
    let q = x / y;
    let r = x % y;
    assert(truncated_remainder(a as int, b as int) == if a >= 0 {
        r
    } else {
        -r
    }) by (nonlinear_arith)
        requires
            x == y * q + r,
            x == if a >= 0 {
                a as int
            } else {
                -(a as int)
            },
            y == if b > 0 {
                b as int
            } else {
                -(b as int)
            },
            truncated_quotient(a as int, b as int) == if (a >= 0) == (b > 0) {
                q
            } else {
                -q
            },
            truncated_remainder(a as int, b as int) == a - b * truncated_quotient(
                a as int,
                b as int,
            ),
    ;
}

/// The stack discipline: a step is refused for want of values exactly if the
/// instruction at the program counter takes more values than the stack holds.
pub proof fn law_stack_discipline(program: ProgramModel, machine: Machine, input: Option<u8>)
    requires
        machine.program_counter < program.lines.len(),
    ensures
        step(program, machine, input) == Outcome::Failed(Failure::StackUnderflow)
            <==> machine.stack.len() < operands(program.lines[machine.program_counter as int]),
{
}

/// The tape discipline, to the left: `left` is refused exactly if the head stands at
/// position 0, and else moves it by one.
pub proof fn law_left(program: ProgramModel, machine: Machine, input: Option<u8>)
    requires
        machine.program_counter < program.lines.len(),
        program.lines[machine.program_counter as int] == Instruction::Left,
    ensures
        machine.tape_head == 0 ==> step(program, machine, input) == Outcome::Failed(
            Failure::TapeHeadUnderflow,
        ),
        machine.tape_head > 0 ==> (step(program, machine, input) matches Outcome::Stepped {
            machine: after,
            output,
        } && after.tape_head == machine.tape_head - 1 && after.tape == machine.tape && after.stack
            == machine.stack),
{
}

/// The tape discipline, on storing: `pop` makes the tape just long enough to hold
/// the cell at the head, with zeros in the new cells, stores the top of the stack
/// there and leaves every other cell; a `pusht` at the same head then reads that
/// value.
pub proof fn law_pop_stores(
    labels: Map<Seq<char>, usize>,
    machine: Machine,
    input: Option<u8>,
)
    requires
        machine.stack.len() > 0,
        machine.tape_head < usize::MAX,
    ensures
        effect(labels, Instruction::Pop, machine, input) matches Outcome::Stepped {
            machine: after,
            output,
        } && {
            &&& after.tape.len() == if machine.tape_head < machine.tape.len() {
                machine.tape.len()
            } else {
                machine.tape_head + 1
            }
            &&& after.tape[machine.tape_head as int] == machine.stack.last()
            &&& forall|i: int|
                0 <= i < after.tape.len() && i != machine.tape_head ==> #[trigger] after.tape[i]
                    == if i < machine.tape.len() {
                    machine.tape[i]
                } else {
                    0
                }
            &&& after.stack == machine.stack.drop_last()
            &&& after.tape_head == machine.tape_head
            &&& effect(labels, Instruction::PushTapeCell, after, input) matches Outcome::Stepped {
                machine: read,
                output,
            } && read.stack == after.stack.push(machine.stack.last()) && read.tape == after.tape
        },
{
}

/// Label resolution: the table of a well-formed program holds a name exactly if a
/// line declares it, and maps it to the position of the last line that does; `push`
/// with that name pushes the integer that stands for this position.
pub proof fn law_label_resolution(program: ProgramModel, name: Seq<char>)
    requires
        program.well_formed(),
    ensures
        program.labels.contains_key(name) <==> exists|i: int|
            0 <= i < program.lines.len() && #[trigger] program.lines[i] == Instruction::LabelDecl(
                name,
            ),
        program.labels.contains_key(name) ==> {
            &&& program.labels[name] < program.lines.len()
            &&& program.lines[program.labels[name] as int] == Instruction::LabelDecl(name)
            &&& forall|i: int|
                program.labels[name] < i < program.lines.len() ==> #[trigger] program.lines[i]
                    != Instruction::LabelDecl(name)
        },
        forall|machine: Machine, input: Option<u8>|
            program.labels.contains_key(name) ==> #[trigger] effect(
                program.labels,
                Instruction::PushLabel(name),
                machine,
                input,
            ) == (Outcome::Stepped {
                machine: Machine {
                    stack: machine.stack.push(position_value(program.labels[name])),
                    ..machine
                },
                output: None,
            }),
{
    lemma_last_declaration(program.lines, name);
}

/// What [`label_table`] holds for a name.
pub proof fn lemma_last_declaration(lines: Seq<Instruction>, name: Seq<char>)
    requires
        lines.len() <= usize::MAX,
    ensures
        label_table(lines).contains_key(name) <==> exists|i: int|
            0 <= i < lines.len() && #[trigger] lines[i] == Instruction::LabelDecl(name),
        label_table(lines).contains_key(name) ==> {
            &&& label_table(lines)[name] < lines.len()
            &&& lines[label_table(lines)[name] as int] == Instruction::LabelDecl(name)
            &&& forall|i: int|
                label_table(lines)[name] < i < lines.len() ==> #[trigger] lines[i]
                    != Instruction::LabelDecl(name)
        },
    decreases lines.len(),
{
    let declaration = Instruction::LabelDecl(name);
    if lines.len() > 0 {
        let before = lines.drop_last();
        lemma_last_declaration(before, name);
        if lines.last() == declaration {
            assert(lines[lines.len() - 1] == declaration);
        } else {
            if exists|i: int| 0 <= i < lines.len() && #[trigger] lines[i] == declaration {
                let i = choose|i: int| 0 <= i < lines.len() && #[trigger] lines[i] == declaration;
                assert(before[i] == declaration);
            }
            if exists|i: int| 0 <= i < before.len() && #[trigger] before[i] == declaration {
                let i = choose|i: int| 0 <= i < before.len() && #[trigger] before[i] == declaration;
                assert(lines[i] == declaration);
            }
            if label_table(lines).contains_key(name) {
                let at = label_table(before)[name] as int;
                assert(lines[at] == before[at]);
                assert forall|i: int| at < i < lines.len() implies #[trigger] lines[i]
                    != declaration by {
                    if i < lines.len() - 1 {
                        assert(before[i] != declaration);
                    }
                }
            }
        }
    }
}

/// Whether `instruction` can set the program counter.
pub open spec fn is_jump(instruction: Instruction) -> bool {
    instruction is Jump || instruction is JumpIfNonzero
}

/// Termination: after a step the machine is terminated exactly if its program
/// counter is no address of the program; an instruction that is no jump moves the
/// counter to the next address, which is at most the length of the program; and a
/// terminated machine outside the program takes no further step, so that a run ends
/// there with the state as it is.
pub proof fn law_termination(
    program: ProgramModel,
    machine: Machine,
    input: Seq<u8>,
    consumed: nat,
    output: Seq<u8>,
    fuel: nat,
    next: Option<u8>,
)
    ensures
        step(program, machine, next) matches Outcome::Stepped { machine: after, output } ==> {
            &&& machine.program_counter < program.lines.len()
            &&& after.terminated <==> after.program_counter >= program.lines.len()
            &&& !is_jump(program.lines[machine.program_counter as int]) ==> after.program_counter
                == machine.program_counter + 1
        },
        machine.terminated && machine.program_counter >= program.lines.len() ==> step(
            program,
            machine,
            next,
        ) == Outcome::Failed(Failure::Terminated),
        machine.terminated ==> run_from(program, machine, input, consumed, output, fuel) == (Run {
            machine,
            consumed,
            output,
            status: Status::Terminated,
        }),
{
}

} // verus!
