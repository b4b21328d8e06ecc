//! Obfuscation keeps what a program does, as far as that holds: for programs that
//! are executed line after line.

use vstd::prelude::*;
use crate::driver::{next_input, printed, run, run_from, Cause, Run, Status};
use crate::instruction::Instruction;
use crate::laws::is_jump;
use crate::machine::{binary, effect, step, truncated_quotient, Fault, Machine, Outcome};
use crate::obfuscate::{
    admissible, apply, is_dead_code, lemma_apply_length, obfuscable, obfuscation, resolved, splice,
    stripped, DeadCode, Insertion,
};
use crate::program::{label_table, ProgramModel};

verus! {

/// What a run of instructions that are executed one after the other has come to:
/// the tape and the stack, the bytes taken and printed, and why it stopped, if it
/// did.
pub struct Trace {
    pub tape_head: nat,
    pub tape: Seq<i32>,
    pub stack: Seq<i32>,
    pub consumed: nat,
    pub output: Seq<u8>,
    pub stopped: Option<Cause>,
}

/// The machine that stands for a trace where the program counter does not matter.
pub open spec fn machine_of(trace: Trace) -> Machine {
    Machine {
        program_counter: 0,
        tape_head: trace.tape_head,
        tape: trace.tape,
        stack: trace.stack,
        terminated: false,
    }
}

/// The trace after `instruction`; a trace that has stopped stays as it is.
pub open spec fn perform(instruction: Instruction, trace: Trace, input: Seq<u8>) -> Trace {
    if trace.stopped is Some {
        trace
    } else {
        match effect(
            Map::empty(),
            instruction,
            machine_of(trace),
            next_input(input, trace.consumed),
        ) {
            Outcome::Stepped { machine, output } => Trace {
                tape_head: machine.tape_head,
                tape: machine.tape,
                stack: machine.stack,
                consumed: if instruction == Instruction::ReadByte {
                    trace.consumed + 1
                } else {
                    trace.consumed
                },
                output: printed(trace.output, output),
                stopped: None,
            },
            Outcome::Failed(failure) => Trace { stopped: Some(Cause::Error(failure)), ..trace },
            Outcome::Faulted(fault) => Trace { stopped: Some(Cause::Fault(fault)), ..trace },
        }
    }
}

/// The trace after the instructions of `lines`, executed in their order.
pub open spec fn perform_all(lines: Seq<Instruction>, trace: Trace, input: Seq<u8>) -> Trace
    decreases lines.len(),
{
    if lines.len() == 0 {
        trace
    } else {
        perform_all(lines.skip(1), perform(lines[0], trace, input), input)
    }
}

/// Whether `lines` hold neither a jump nor a reference to a label, so that they are
/// executed in their order whatever their positions are.
pub open spec fn straight(lines: Seq<Instruction>) -> bool {
    forall|i: int| 0 <= i < lines.len() ==> !is_jump(#[trigger] lines[i]) && !(lines[i] is PushLabel)
}

/// Whether `lines` leave every trace as it is.
pub open spec fn idle(lines: Seq<Instruction>, input: Seq<u8>) -> bool {
    forall|trace: Trace| #[trigger] perform_all(lines, trace, input) == trace
}

/// Lines made of two parts are executed part after part.
proof fn lemma_perform_concat(a: Seq<Instruction>, b: Seq<Instruction>, trace: Trace, input: Seq<u8>)
    ensures
        perform_all(a + b, trace, input) == perform_all(b, perform_all(a, trace, input), input),
    decreases a.len(),
{
    if a.len() == 0 {
        assert(a + b =~= b);
    } else {
        assert((a + b).skip(1) =~= a.skip(1) + b);
        lemma_perform_concat(a.skip(1), b, perform(a[0], trace, input), input);
    }
}

/// A single line is executed as its instruction.
proof fn lemma_perform_one(instruction: Instruction, trace: Trace, input: Seq<u8>)
    ensures
        perform_all(seq![instruction], trace, input) == perform(instruction, trace, input),
{
    let one = seq![instruction];
    assert(one.skip(1).len() == 0);
    assert(perform_all(one.skip(1), perform(instruction, trace, input), input) == perform(
        instruction,
        trace,
        input,
    ));
}

/// No-ops do nothing, so taking them out changes no trace.
proof fn lemma_perform_stripped(lines: Seq<Instruction>, trace: Trace, input: Seq<u8>)
    ensures
        perform_all(stripped(lines), trace, input) == perform_all(lines, trace, input),
    decreases lines.len(),
{
    if lines.len() > 0 {
        let before = lines.drop_last();
        let last = lines.last();
        lemma_perform_stripped(before, trace, input);
        assert(lines =~= before + seq![last]);
        lemma_perform_concat(before, seq![last], trace, input);
        lemma_perform_one(last, perform_all(before, trace, input), input);
        if last != Instruction::NoOp {
            assert(stripped(lines) =~= stripped(before) + seq![last]);
            lemma_perform_concat(stripped(before), seq![last], trace, input);
            lemma_perform_one(last, perform_all(stripped(before), trace, input), input);
        }
    }
}

/// A block that does nothing can go in anywhere.
proof fn lemma_perform_splice(
    lines: Seq<Instruction>,
    index: int,
    block: Seq<Instruction>,
    trace: Trace,
    input: Seq<u8>,
)
    requires
        0 <= index <= lines.len(),
        idle(block, input),
    ensures
        perform_all(splice(lines, index, block), trace, input) == perform_all(lines, trace, input),
{
    let head = lines.take(index);
    let tail = lines.skip(index);
    assert(lines =~= head + tail);
    lemma_perform_concat(head, tail, trace, input);
    lemma_perform_concat(head + block, tail, trace, input);
    lemma_perform_concat(head, block, trace, input);
    assert(perform_all(block, perform_all(head, trace, input), input) == perform_all(
        head,
        trace,
        input,
    ));
}

/// `trace` with `stack` for its stack.
pub open spec fn with_stack(trace: Trace, stack: Seq<i32>) -> Trace {
    Trace { stack, ..trace }
}

/// `push` of a constant puts it on the stack.
proof fn lemma_perform_push(c: i32, trace: Trace, input: Seq<u8>)
    requires
        trace.stopped is None,
    ensures
        perform(Instruction::PushConst(c), trace, input) == with_stack(trace, trace.stack.push(c)),
{
}

/// `dup` puts the top of the stack on it once more.
proof fn lemma_perform_dup(base: Seq<i32>, top: i32, trace: Trace, input: Seq<u8>)
    requires
        trace.stopped is None,
        trace.stack == base.push(top),
    ensures
        perform(Instruction::Dup, trace, input) == with_stack(trace, base.push(top).push(top)),
{
}

/// `del` takes the top off the stack.
proof fn lemma_perform_delete(base: Seq<i32>, top: i32, trace: Trace, input: Seq<u8>)
    requires
        trace.stopped is None,
        trace.stack == base.push(top),
    ensures
        perform(Instruction::Delete, trace, input) == with_stack(trace, base),
{
    assert(base.push(top).drop_last() =~= base);
}

/// An arithmetic instruction replaces its two operands by its result.
proof fn lemma_perform_binary(
    instruction: Instruction,
    base: Seq<i32>,
    a: i32,
    b: i32,
    value: i32,
    trace: Trace,
    input: Seq<u8>,
)
    requires
        trace.stopped is None,
        trace.stack == base.push(a).push(b),
        instruction is Add || instruction is Sub || instruction is Mult || instruction is Div,
        binary(instruction, a, b) == Some(Ok::<i32, Fault>(value)),
    ensures
        perform(instruction, trace, input) == with_stack(trace, base.push(value)),
{
    let stack = base.push(a).push(b);
    assert(stack.take(stack.len() - 2) =~= base);
    assert(stack[stack.len() - 2] == a);
}

/// The quotient of two factors of dead code is small.
proof fn lemma_small_quotient(a: int, b: int)
    requires
        3 <= a < 10,
        3 <= b < 10,
    ensures
        0 <= truncated_quotient(a, b) <= 3,
{
    vstd::arithmetic::div_mod::lemma_fundamental_div_mod(a, b);
    vstd::arithmetic::div_mod::lemma_mod_bound(a, b);
    let q = a / b;
    assert(0 <= q <= 3) by (nonlinear_arith)
        requires
            a == b * q + a % b,
            0 <= a % b < b,
            3 <= a < 10,
            3 <= b < 10,
    ;
}

/// Dead code of every pattern leaves every trace as it is.
proof fn lemma_dead_code_idle(kind: DeadCode, block: Seq<Instruction>, trace: Trace, input: Seq<u8>)
    requires
        is_dead_code(kind, block),
    ensures
        perform_all(block, trace, input) == trace,
{
    reveal_with_fuel(perform_all, 7);
    if trace.stopped is Some {
    } else {
        let base = trace.stack;
        match kind {
            DeadCode::Blank => {},
            DeadCode::PushDelete => {
                let a = block[0]->PushConst_0;
                lemma_perform_push(a, trace, input);
                lemma_perform_delete(base, a, with_stack(trace, base.push(a)), input);
            },
            DeadCode::Sum => {
                let a = block[0]->PushConst_0;
                let b = block[1]->PushConst_0;
                let t1 = with_stack(trace, base.push(a));
                let t2 = with_stack(trace, base.push(a).push(b));
                let t3 = with_stack(trace, base.push((a + b) as i32));
                lemma_perform_push(a, trace, input);
                lemma_perform_push(b, t1, input);
                lemma_perform_binary(Instruction::Add, base, a, b, (a + b) as i32, t2, input);
                lemma_perform_delete(base, (a + b) as i32, t3, input);
            },
            DeadCode::Difference => {
                let a = block[0]->PushConst_0;
                let b = block[1]->PushConst_0;
                let t1 = with_stack(trace, base.push(a));
                let t2 = with_stack(trace, base.push(a).push(b));
                let t3 = with_stack(trace, base.push((a - b) as i32));
                lemma_perform_push(a, trace, input);
                lemma_perform_push(b, t1, input);
                lemma_perform_binary(Instruction::Sub, base, a, b, (a - b) as i32, t2, input);
                lemma_perform_delete(base, (a - b) as i32, t3, input);
            },
            DeadCode::Double => {
                let a = block[0]->PushConst_0;
                let t1 = with_stack(trace, base.push(a));
                let t2 = with_stack(trace, base.push(a).push(a));
                let t3 = with_stack(trace, base.push((a + a) as i32));
                lemma_perform_push(a, trace, input);
                lemma_perform_dup(base, a, t1, input);
                lemma_perform_binary(Instruction::Add, base, a, a, (a + a) as i32, t2, input);
                lemma_perform_delete(base, (a + a) as i32, t3, input);
            },
            DeadCode::Ratio => {
                let a = block[0]->PushConst_0;
                let b = block[1]->PushConst_0;
                let c = block[3]->PushConst_0;
                lemma_small_quotient(a as int, b as int);
                let q = truncated_quotient(a as int, b as int) as i32;
                assert(0 <= q * c <= 27) by (nonlinear_arith)
                    requires
                        0 <= q <= 3,
                        3 <= c < 10,
                ;
                let p = (q * c) as i32;
                let t1 = with_stack(trace, base.push(a));
                let t2 = with_stack(trace, base.push(a).push(b));
                let t3 = with_stack(trace, base.push(q));
                let t4 = with_stack(trace, base.push(q).push(c));
                let t5 = with_stack(trace, base.push(p));
                lemma_perform_push(a, trace, input);
                lemma_perform_push(b, t1, input);
                lemma_perform_binary(Instruction::Div, base, a, b, q, t2, input);
                lemma_perform_push(c, t3, input);
                lemma_perform_binary(Instruction::Mult, base, q, c, p, t4, input);
                lemma_perform_delete(base, p, t5, input);
            },
            DeadCode::Square => {
                let a = block[0]->PushConst_0;
                let c = block[3]->PushConst_0;
                assert(0 <= a * a <= 81) by (nonlinear_arith)
                    requires
                        -3 <= a < 10,
                ;
                let q = (a * a) as i32;
                assert(0 <= q * c <= 729) by (nonlinear_arith)
                    requires
                        0 <= q <= 81,
                        3 <= c < 10,
                ;
                let p = (q * c) as i32;
                let t1 = with_stack(trace, base.push(a));
                let t2 = with_stack(trace, base.push(a).push(a));
                let t3 = with_stack(trace, base.push(q));
                let t4 = with_stack(trace, base.push(q).push(c));
                let t5 = with_stack(trace, base.push(p));
                lemma_perform_push(a, trace, input);
                lemma_perform_dup(base, a, t1, input);
                lemma_perform_binary(Instruction::Mult, base, a, a, q, t2, input);
                lemma_perform_push(c, t3, input);
                lemma_perform_binary(Instruction::Mult, base, q, c, p, t4, input);
                lemma_perform_delete(base, p, t5, input);
            },
        }
    }
}

/// Putting in dead code changes no trace.
proof fn lemma_perform_apply(
    lines: Seq<Instruction>,
    script: Seq<Insertion>,
    trace: Trace,
    input: Seq<u8>,
)
    requires
        admissible(lines, script),
    ensures
        perform_all(apply(lines, script), trace, input) == perform_all(lines, trace, input),
    decreases script.len(),
{
    if script.len() > 0 {
        let last = script.last();
        lemma_perform_apply(lines, script.drop_last(), trace, input);
        assert(idle(last.block, input)) by {
            assert forall|any: Trace| #[trigger] perform_all(last.block, any, input) == any by {
                lemma_dead_code_idle(last.kind, last.block, any, input);
            }
        }
        lemma_perform_splice(
            apply(lines, script.drop_last()),
            last.index,
            last.block,
            trace,
            input,
        );
    }
}

/// Straight lines stay straight without their no-ops.
proof fn lemma_straight_stripped(lines: Seq<Instruction>)
    requires
        straight(lines),
    ensures
        straight(stripped(lines)),
    decreases lines.len(),
{
    if lines.len() > 0 {
        assert(straight(lines.drop_last())) by {
            assert forall|i: int| 0 <= i < lines.drop_last().len() implies !is_jump(
                #[trigger] lines.drop_last()[i],
            ) && !(lines.drop_last()[i] is PushLabel) by {
                assert(lines.drop_last()[i] == lines[i]);
            }
        }
        lemma_straight_stripped(lines.drop_last());
        assert(!is_jump(lines[lines.len() - 1]) && !(lines[lines.len() - 1] is PushLabel));
    }
}

/// Straight lines stay straight with dead code in them.
proof fn lemma_straight_apply(lines: Seq<Instruction>, script: Seq<Insertion>)
    requires
        straight(lines),
        admissible(lines, script),
    ensures
        straight(apply(lines, script)),
    decreases script.len(),
{
    if script.len() > 0 {
        let before = apply(lines, script.drop_last());
        let last = script.last();
        let after = apply(lines, script);
        lemma_straight_apply(lines, script.drop_last());
        assert forall|j: int| 0 <= j < after.len() implies !is_jump(#[trigger] after[j]) && !(
        after[j] is PushLabel) by {
            if j < last.index {
                assert(after[j] == before[j]);
            } else if j < last.index + last.block.len() {
                assert(after[j] == last.block[j - last.index]);
            } else {
                assert(after[j] == before[j - last.block.len()]);
            }
        }
    }
}

/// Resolving the labels of lines without references only blanks the declarations,
/// which do nothing.
proof fn lemma_perform_resolved(lines: Seq<Instruction>, trace: Trace, input: Seq<u8>)
    requires
        straight(lines),
    ensures
        perform_all(resolved(lines), trace, input) == perform_all(lines, trace, input),
        straight(resolved(lines)),
{
    lemma_perform_alike(resolved(lines), lines, trace, input);
}

/// Whether two instructions have the same effect wherever they stand.
pub open spec fn alike(a: Instruction, b: Instruction) -> bool {
    a == b || ((a is NoOp || a is LabelDecl) && (b is NoOp || b is LabelDecl))
}

/// Lines that are alike position by position give the same trace.
proof fn lemma_perform_alike(a: Seq<Instruction>, b: Seq<Instruction>, trace: Trace, input: Seq<u8>)
    requires
        a.len() == b.len(),
        forall|i: int| 0 <= i < a.len() ==> alike(#[trigger] a[i], b[i]),
    ensures
        perform_all(a, trace, input) == perform_all(b, trace, input),
    decreases a.len(),
{
    if a.len() > 0 {
        assert(alike(a[0], b[0]));
        assert forall|i: int| 0 <= i < a.skip(1).len() implies alike(
            #[trigger] a.skip(1)[i],
            b.skip(1)[i],
        ) by {
            assert(alike(a[i + 1], b[i + 1]));
        }
        lemma_perform_alike(a.skip(1), b.skip(1), perform(a[0], trace, input), input);
    }
}

/// The trace of a machine in a run.
pub open spec fn trace_of(machine: Machine, consumed: nat, output: Seq<u8>) -> Trace {
    Trace {
        tape_head: machine.tape_head,
        tape: machine.tape,
        stack: machine.stack,
        consumed,
        output,
        stopped: None,
    }
}

/// Whether a run has ended as a trace has: with the same tape, stack, input taken
/// and output, and terminated or given up for the same cause.
pub open spec fn ends_as(outcome: Run, trace: Trace) -> bool {
    &&& outcome.machine.tape_head == trace.tape_head
    &&& outcome.machine.tape == trace.tape
    &&& outcome.machine.stack == trace.stack
    &&& outcome.consumed == trace.consumed
    &&& outcome.output == trace.output
    &&& outcome.status == match trace.stopped {
        Some(cause) => Status::Crashed(cause),
        None => Status::Terminated,
    }
}

/// A run of a program without jumps and references executes the lines from the
/// program counter on, in their order.
proof fn lemma_run_straight(
    program: ProgramModel,
    machine: Machine,
    input: Seq<u8>,
    consumed: nat,
    output: Seq<u8>,
    fuel: nat,
)
    requires
        straight(program.lines),
        machine.program_counter <= program.lines.len(),
        machine.terminated <==> machine.program_counter >= program.lines.len(),
        fuel >= program.lines.len() - machine.program_counter,
    ensures
        ends_as(
            run_from(program, machine, input, consumed, output, fuel),
            perform_all(
                program.lines.skip(machine.program_counter as int),
                trace_of(machine, consumed, output),
                input,
            ),
        ),
    decreases fuel,
{
    let rest = program.lines.skip(machine.program_counter as int);
    let trace = trace_of(machine, consumed, output);
    if machine.terminated {
        assert(rest.len() == 0);
    } else {
        let instruction = program.lines[machine.program_counter as int];
        assert(rest[0] == instruction);
        assert(!is_jump(instruction) && !(instruction is PushLabel));
        assert(rest.skip(1) =~= program.lines.skip(machine.program_counter as int + 1));
        let next = next_input(input, consumed);
        let advanced = Machine {
            program_counter: machine.program_counter + 1,
            terminated: false,
            ..machine
        };
        assert(effect(program.labels, instruction, advanced, next) == match effect(
            Map::empty(),
            instruction,
            machine_of(trace),
            next,
        ) {
            Outcome::Stepped { machine: after, output } => Outcome::Stepped {
                machine: Machine {
                    program_counter: machine.program_counter + 1,
                    terminated: false,
                    ..after
                },
                output,
            },
            other => other,
        });
        match step(program, machine, next) {
            Outcome::Stepped { machine: after, output: byte } => {
                lemma_run_straight(
                    program,
                    after,
                    input,
                    if instruction == Instruction::ReadByte {
                        consumed + 1
                    } else {
                        consumed
                    },
                    printed(output, byte),
                    (fuel - 1) as nat,
                );
                assert(trace_of(
                    after,
                    if instruction == Instruction::ReadByte {
                        consumed + 1
                    } else {
                        consumed
                    },
                    printed(output, byte),
                ) == perform(instruction, trace, input));
            },
            _ => {
                lemma_perform_stopped(rest.skip(1), perform(instruction, trace, input), input);
            },
        }
    }
}

/// A trace that has stopped stays as it is, whatever follows.
proof fn lemma_perform_stopped(lines: Seq<Instruction>, trace: Trace, input: Seq<u8>)
    requires
        trace.stopped is Some,
    ensures
        perform_all(lines, trace, input) == trace,
    decreases lines.len(),
{
    if lines.len() > 0 {
        lemma_perform_stopped(lines.skip(1), trace, input);
    }
}

/// The program made of `lines`, with the table of the labels declared in them.
pub open spec fn program_of(lines: Seq<Instruction>) -> ProgramModel {
    ProgramModel { lines, labels: label_table(lines) }
}

/// Obfuscation keeps what a program does, if the program holds neither a reference
/// to a label nor a jump: on the same input, the run of the obfuscated program ends
/// as the run of the program itself does, with the same output, the same tape and stack,
/// the same input taken, and terminated or given up for the same cause. This holds
/// whatever dead code was put in, and wherever.
pub proof fn law_obfuscation_keeps_behaviour(
    lines: Seq<Instruction>,
    script: Seq<Insertion>,
    input: Seq<u8>,
    fuel: nat,
    more: nat,
)
    requires
        straight(lines),
        obfuscable(lines),
        admissible(stripped(lines), script),
        fuel >= lines.len(),
        more >= obfuscation(lines, script).len(),
    ensures
        ({
            let before = run(program_of(lines), input, fuel);
            let after = run(program_of(obfuscation(lines, script)), input, more);
            &&& !(before.status is Running)
            &&& after.status == before.status
            &&& after.output == before.output
            &&& after.consumed == before.consumed
            &&& after.machine.tape == before.machine.tape
            &&& after.machine.tape_head == before.machine.tape_head
            &&& after.machine.stack == before.machine.stack
        }),
{
    let start = trace_of(Machine::fresh(), 0, Seq::empty());
    let padded = apply(stripped(lines), script);
    let plain = obfuscation(lines, script);
    lemma_straight_stripped(lines);
    lemma_straight_apply(stripped(lines), script);
    lemma_perform_resolved(padded, start, input);
    lemma_perform_apply(stripped(lines), script, start, input);
    lemma_perform_stripped(lines, start, input);
    lemma_apply_length(stripped(lines), script);
    lemma_stripped_shorter(lines);
    assert(lines.skip(0) =~= lines);
    assert(plain.skip(0) =~= plain);
    lemma_run_straight(program_of(lines), Machine::fresh(), input, 0, Seq::empty(), fuel);
    lemma_run_straight(program_of(plain), Machine::fresh(), input, 0, Seq::empty(), more);
}

/// Taking the no-ops out never makes the lines more.
proof fn lemma_stripped_shorter(lines: Seq<Instruction>)
    ensures
        stripped(lines).len() <= lines.len(),
    decreases lines.len(),
{
    if lines.len() > 0 {
        lemma_stripped_shorter(lines.drop_last());
    }
}

} // verus!
