use tape_vm::driver::{crash_report, execute_or_crash, Crash};
use tape_vm::instruction::{Command, PushArgument};
use tape_vm::machine::{
    execute_command, pending_error, pending_fault, reads_next, ExecutionError, Fault,
    MachineState,
};
use tape_vm::parser::parse_program;
use tape_vm::program::Program;

fn program(text: &str) -> Program {
    parse_program(text)
}

/// Runs `program` on `input` until it terminates; gives the final state and the output.
fn run(program: &Program, input: &[u8]) -> Result<(MachineState, Vec<u8>), Crash> {
    let mut machine = MachineState::default();
    let mut output = Vec::new();
    let mut consumed = 0;
    while !machine.terminated {
        let next = input.get(consumed).copied();
        if reads_next(program, &machine) {
            consumed += 1;
        }
        if let Some(report) = crash_report(program, &machine, next) {
            return Err(report.cause);
        }
        let (after, byte) = execute_or_crash(program, machine, next);
        machine = after;
        output.extend(byte);
    }
    Ok((machine, output))
}

fn stack_after(text: &str) -> Vec<i32> {
    run(&program(text), &[]).unwrap().0.stack
}

#[test]
fn division_takes_the_upper_value_as_divisor() {
    assert_eq!(stack_after("push 7\npush 2\ndiv"), vec![3]);
}

#[test]
fn division_rounds_toward_zero() {
    assert_eq!(stack_after("push -7\npush 2\ndiv"), vec![-3]);
    assert_eq!(stack_after("push 7\npush -2\ndiv"), vec![-3]);
    assert_eq!(stack_after("push -7\npush -2\ndiv"), vec![3]);
}

#[test]
fn remainder_has_the_sign_of_the_dividend() {
    assert_eq!(stack_after("push -7\npush 2\nmod"), vec![-1]);
    assert_eq!(stack_after("push 7\npush -2\nmod"), vec![1]);
    assert_eq!(stack_after("push 7\npush 2\nmod"), vec![1]);
    assert_eq!(stack_after("push -7\npush -2\nmod"), vec![-1]);
}

#[test]
fn subtraction_takes_the_upper_value_as_subtrahend() {
    assert_eq!(stack_after("push 7\npush 2\nsub"), vec![5]);
}

#[test]
fn addition_and_multiplication() {
    assert_eq!(stack_after("push 7\npush 2\nadd"), vec![9]);
    assert_eq!(stack_after("push 7\npush -2\nmult"), vec![-14]);
}

#[test]
fn comparisons_push_one_or_zero() {
    assert_eq!(stack_after("push 7\npush 2\ngt"), vec![1]);
    assert_eq!(stack_after("push 7\npush 2\nlt"), vec![0]);
    assert_eq!(stack_after("push 2\npush 7\nlt"), vec![1]);
    assert_eq!(stack_after("push 7\npush 7\neq"), vec![1]);
    assert_eq!(stack_after("push 7\npush 2\neq"), vec![0]);
    assert_eq!(stack_after("push 0\nnot"), vec![1]);
    assert_eq!(stack_after("push 5\nnot"), vec![0]);
}

#[test]
fn operands_below_stay_on_the_stack() {
    assert_eq!(stack_after("push 1\npush 7\npush 2\nsub"), vec![1, 5]);
    assert_eq!(stack_after("push 1\npush 9\ndup"), vec![1, 9, 9]);
    assert_eq!(stack_after("push 1\npush 9\ndel"), vec![1]);
}

#[test]
fn every_command_that_takes_values_fails_on_an_empty_stack() {
    for text in [
        "pop", "dup", "del", "eq", "not", "gt", "lt", "add", "sub", "mult", "div", "mod", "print",
        "jmp", "jmpc",
    ] {
        let result = execute_command(&program(text), MachineState::default(), None);
        assert_eq!(result.err(), Some(ExecutionError::StackUnderflow), "{}", text);
    }
}

#[test]
fn every_command_that_takes_two_values_fails_on_one() {
    for text in ["eq", "gt", "lt", "add", "sub", "mult", "div", "mod", "jmpc"] {
        let mut machine = MachineState::default();
        machine.stack.push(0);
        let result = execute_command(&program(text), machine, None);
        assert_eq!(result.err(), Some(ExecutionError::StackUnderflow), "{}", text);
    }
}

#[test]
fn left_at_the_start_of_the_tape_fails() {
    let result = execute_command(&program("left"), MachineState::default(), None);
    assert_eq!(result.err(), Some(ExecutionError::TapeHeadUnderflow));
}

#[test]
fn right_then_left_comes_back() {
    let (machine, _) = run(&program("right\nright\nleft"), &[]).unwrap();
    assert_eq!(machine.tape_head, 1);
}

#[test]
fn pop_grows_the_tape_and_pusht_reads_it() {
    let (machine, _) = run(&program("push 5\npop"), &[]).unwrap();
    assert_eq!(machine.tape, vec![5]);
    assert!(machine.stack.is_empty());
    assert_eq!(stack_after("push 5\npop\npusht"), vec![5]);
}

#[test]
fn pop_beyond_the_tape_fills_with_zeros() {
    let (machine, _) = run(&program("right\nright\npush 5\npop"), &[]).unwrap();
    assert_eq!(machine.tape, vec![0, 0, 5]);
    let (machine, _) = run(&program("right\nright\npush 5\npop\nleft\npush 4\npop"), &[]).unwrap();
    assert_eq!(machine.tape, vec![0, 4, 5]);
}

#[test]
fn a_cell_that_was_never_written_reads_as_zero() {
    assert_eq!(stack_after("right\nright\npusht"), vec![0]);
}

#[test]
fn jmpc_jumps_when_the_condition_is_not_zero() {
    let text = "push 7\npush 5\njmpc\npush 1\npush 2\npush 3";
    let program = program(text);
    let mut machine = MachineState::default();
    for _ in 0..3 {
        machine = execute_command(&program, machine, None).unwrap().0;
    }
    assert_eq!(machine.program_counter, 5);
    assert!(machine.stack.is_empty());
    assert_eq!(stack_after(text), vec![3]);
}

#[test]
fn jmpc_falls_through_when_the_condition_is_zero() {
    let text = "push 0\npush 5\njmpc\npush 1\npush 2\npush 3";
    let program = program(text);
    let mut machine = MachineState::default();
    for _ in 0..3 {
        machine = execute_command(&program, machine, None).unwrap().0;
    }
    assert_eq!(machine.program_counter, 3);
    assert_eq!(stack_after(text), vec![1, 2, 3]);
}

#[test]
fn jmpc_jumps_to_address_two_or_falls_through() {
    let jumping = program("push 1\npush 2\njmpc");
    let mut machine = MachineState::default();
    for _ in 0..3 {
        machine = execute_command(&jumping, machine, None).unwrap().0;
    }
    assert_eq!(machine.program_counter, 2);
    assert!(!machine.terminated);
    assert!(machine.stack.is_empty());
    let falling = program("push 0\npush 2\njmpc");
    let mut machine = MachineState::default();
    for _ in 0..3 {
        machine = execute_command(&falling, machine, None).unwrap().0;
    }
    assert_eq!(machine.program_counter, 3);
    assert!(machine.terminated);
    assert!(machine.stack.is_empty());
}

#[test]
fn jmpc_takes_the_upper_value_as_target() {
    let program = program("push 2\npush 1\njmpc");
    let mut machine = MachineState::default();
    for _ in 0..3 {
        machine = execute_command(&program, machine, None).unwrap().0;
    }
    assert_eq!(machine.program_counter, 1);
    assert!(!machine.terminated);
}

#[test]
fn jmp_sets_the_program_counter() {
    assert_eq!(stack_after("push 3\njmp\npush 1\npush 2"), vec![2]);
}

#[test]
fn a_jump_to_a_negative_address_ends_the_run() {
    let (machine, _) = run(&program("push -1\njmp\npush 1"), &[]).unwrap();
    assert!(machine.terminated);
    assert_eq!(machine.program_counter, usize::MAX);
    assert!(machine.stack.is_empty());
}

#[test]
fn a_label_pushes_the_line_of_its_declaration() {
    let text = "push end\n\n# a comment\njmp\npush 1\nend:\npush 2";
    assert_eq!(stack_after(text), vec![2]);
    let program = program(text);
    let machine = execute_command(&program, MachineState::default(), None).unwrap().0;
    assert_eq!(machine.stack, vec![5]);
}

#[test]
fn the_last_declaration_of_a_label_wins() {
    let program = program("a:\na:\npush a");
    let mut machine = MachineState::default();
    machine.program_counter = 2;
    let machine = execute_command(&program, machine, None).unwrap().0;
    assert_eq!(machine.stack, vec![1]);
}

#[test]
fn a_label_that_is_not_declared_is_an_error() {
    let result = execute_command(&program("push nowhere"), MachineState::default(), None);
    assert_eq!(result.err(), Some(ExecutionError::InvalidLabel("nowhere".to_string())));
}

#[test]
fn the_machine_terminates_when_the_counter_reaches_the_end() {
    let program = program("push 1\npush 2");
    let machine = execute_command(&program, MachineState::default(), None).unwrap().0;
    assert_eq!(machine.program_counter, 1);
    assert!(!machine.terminated);
    let machine = execute_command(&program, machine, None).unwrap().0;
    assert_eq!(machine.program_counter, 2);
    assert!(machine.terminated);
    let result = execute_command(&program, machine, None);
    assert_eq!(result.err(), Some(ExecutionError::Terminated));
}

#[test]
fn a_terminated_machine_resumes_inside_the_program() {
    let program = program("push 1\npush 2");
    let mut machine = MachineState::default();
    machine.terminated = true;
    machine.program_counter = 1;
    let machine = execute_command(&program, machine, None).unwrap().0;
    assert_eq!(machine.stack, vec![2]);
    assert!(machine.terminated);
}

#[test]
fn a_counter_outside_the_program_is_an_invalid_line() {
    let result = execute_command(&program(""), MachineState::default(), None);
    assert_eq!(result.err(), Some(ExecutionError::InvalidLine(0)));
    let mut machine = MachineState::default();
    machine.program_counter = 9;
    let result = execute_command(&program("left"), machine, None);
    assert_eq!(result.err(), Some(ExecutionError::InvalidLine(9)));
}

#[test]
fn read_pushes_the_byte_and_print_gives_the_low_byte() {
    let program = program("read\nprint\npush 321\nprint\npush -1\nprint");
    let (machine, output) = run(&program, &[200]).unwrap();
    assert!(machine.stack.is_empty());
    assert_eq!(output, vec![200, 65, 255]);
}

#[test]
fn only_read_asks_for_input() {
    let program = program("push 1\nread");
    let mut machine = MachineState::default();
    assert!(!reads_next(&program, &machine));
    machine.program_counter = 1;
    assert!(reads_next(&program, &machine));
    machine.program_counter = 2;
    assert!(!reads_next(&program, &machine));
}

#[test]
fn faults_are_found_before_the_step() {
    let machine = |stack: &[i32]| MachineState { stack: stack.to_vec(), ..MachineState::default() };
    let fault = |text: &str, stack: &[i32]| pending_fault(&program(text), &machine(stack), None);
    assert_eq!(fault("div", &[1, 0]), Some(Fault::DivisionByZero));
    assert_eq!(fault("mod", &[1, 0]), Some(Fault::DivisionByZero));
    assert_eq!(fault("div", &[i32::MIN, -1]), Some(Fault::Overflow));
    assert_eq!(fault("mod", &[i32::MIN, -1]), Some(Fault::Overflow));
    assert_eq!(fault("add", &[i32::MAX, 1]), Some(Fault::Overflow));
    assert_eq!(fault("sub", &[i32::MIN, 1]), Some(Fault::Overflow));
    assert_eq!(fault("mult", &[65536, 65536]), Some(Fault::Overflow));
    assert_eq!(fault("read", &[]), Some(Fault::EndOfInput));
    assert_eq!(fault("div", &[0, 1]), None);
    assert_eq!(fault("div", &[0]), None);
    assert_eq!(fault("add", &[i32::MAX, 0]), None);
    assert_eq!(fault("div", &[i32::MIN, 1]), None);
    let at_the_end = MachineState { tape_head: usize::MAX, ..machine(&[1]) };
    assert_eq!(pending_fault(&program("right"), &at_the_end, None), Some(Fault::TapeLimit));
    assert_eq!(pending_fault(&program("pop"), &at_the_end, None), Some(Fault::TapeLimit));
    assert_eq!(pending_fault(&program("left"), &at_the_end, None), None);
}

#[test]
fn the_least_integer_can_be_divided() {
    assert_eq!(stack_after("push -2147483648\npush 1\ndiv"), vec![i32::MIN]);
    assert_eq!(stack_after("push -2147483648\npush 2\ndiv"), vec![-1073741824]);
    assert_eq!(stack_after("push -2147483648\npush -2147483648\ndiv"), vec![1]);
    assert_eq!(stack_after("push -2147483648\npush 3\nmod"), vec![-2]);
    assert_eq!(stack_after("push 5\npush -2147483648\nmod"), vec![5]);
}

#[test]
fn a_crash_reports_the_state_before_the_step() {
    let program = program("push 4\npush 0\ndiv");
    let mut machine = MachineState::default();
    for _ in 0..2 {
        assert!(crash_report(&program, &machine, None).is_none());
        machine = execute_or_crash(&program, machine, None).0;
    }
    let report = crash_report(&program, &machine, None).unwrap();
    assert_eq!(report.cause, Crash::Fault(Fault::DivisionByZero));
    assert_eq!(report.state.program_counter, 2);
    assert_eq!(report.state.stack, vec![4, 0]);
    assert_eq!(report.command, Some(Command::Div));

    let empty = parse_program("");
    let report = crash_report(&empty, &MachineState::default(), None).unwrap();
    assert_eq!(report.cause, Crash::Error(ExecutionError::InvalidLine(0)));
    assert_eq!(report.command, None);

    let report = run(&parse_program("push 1\ndel\ndel"), &[]).err().unwrap();
    assert_eq!(report, Crash::Error(ExecutionError::StackUnderflow));
}

#[test]
fn a_step_that_can_be_taken_has_no_report() {
    let program = program("push 7\nprint\nread");
    let mut machine = MachineState::default();
    assert!(crash_report(&program, &machine, None).is_none());
    let (next, output) = execute_or_crash(&program, machine, None);
    assert_eq!(next.stack, vec![7]);
    assert_eq!(output, None);
    machine = next;
    let (next, output) = execute_or_crash(&program, machine, None);
    assert_eq!(output, Some(7));
    machine = next;
    assert_eq!(
        crash_report(&program, &machine, None).map(|r| r.cause),
        Some(Crash::Fault(Fault::EndOfInput))
    );
    assert!(crash_report(&program, &machine, Some(9)).is_none());
    let (next, _) = execute_or_crash(&program, machine, Some(9));
    assert_eq!(next.stack, vec![9]);
    assert!(next.terminated);
    assert_eq!(
        crash_report(&program, &next, None).map(|r| r.cause),
        Some(Crash::Error(ExecutionError::Terminated))
    );
}

#[test]
fn errors_are_found_before_the_step() {
    let machine = |stack: &[i32]| MachineState { stack: stack.to_vec(), ..MachineState::default() };
    let error = |text: &str, stack: &[i32]| pending_error(&program(text), &machine(stack));
    for text in ["pop", "dup", "del", "not", "print", "jmp"] {
        assert_eq!(error(text, &[]), Some(ExecutionError::StackUnderflow), "{}", text);
        assert_eq!(error(text, &[1]), None, "{}", text);
    }
    for text in ["eq", "gt", "lt", "add", "sub", "mult", "div", "mod", "jmpc"] {
        assert_eq!(error(text, &[]), Some(ExecutionError::StackUnderflow), "{}", text);
        assert_eq!(error(text, &[1]), Some(ExecutionError::StackUnderflow), "{}", text);
        assert_eq!(error(text, &[1, 0]), None, "{}", text);
    }
    for text in ["right", "pusht", "push 1", "read", "a:", ""] {
        assert_eq!(error(text, &[]), if text.is_empty() {
            Some(ExecutionError::InvalidLine(0))
        } else {
            None
        }, "{}", text);
    }
    assert_eq!(error("left", &[]), Some(ExecutionError::TapeHeadUnderflow));
    let moved = MachineState { tape_head: 1, ..MachineState::default() };
    assert_eq!(pending_error(&program("left"), &moved), None);
    assert_eq!(error("push a", &[]), Some(ExecutionError::InvalidLabel("a".to_string())));
    assert_eq!(error("push a\na:", &[]), None);
    let done = MachineState { terminated: true, program_counter: 1, ..MachineState::default() };
    assert_eq!(pending_error(&program("left"), &done), Some(ExecutionError::Terminated));
    let back = MachineState { terminated: true, ..MachineState::default() };
    assert_eq!(pending_error(&program("right"), &back), None);
}

#[test]
fn the_fresh_machine_is_empty() {
    let machine = MachineState::default();
    assert_eq!(machine.program_counter, 0);
    assert_eq!(machine.tape_head, 0);
    assert!(machine.tape.is_empty());
    assert!(machine.stack.is_empty());
    assert!(!machine.terminated);
}

#[test]
fn commands_are_written_by_their_mnemonics() {
    assert_eq!(Command::Left.to_string(), "left");
    assert_eq!(Command::JmpC.to_string(), "jmpc");
    assert_eq!(Command::PushT.to_string(), "pusht");
    assert_eq!(Command::Null.to_string(), "");
    assert_eq!(Command::Label("loop".to_string()).to_string(), "loop:");
    assert_eq!(Command::Push(PushArgument::Label("loop".to_string())).to_string(), "push loop");
    assert_eq!(Command::Push(PushArgument::Const(0)).to_string(), "push 0");
    assert_eq!(Command::Push(PushArgument::Const(1205)).to_string(), "push 1205");
    assert_eq!(Command::Push(PushArgument::Const(-7)).to_string(), "push -7");
    assert_eq!(Command::Push(PushArgument::Const(i32::MIN)).to_string(), "push -2147483648");
    assert_eq!(Command::Push(PushArgument::Const(i32::MAX)).to_string(), "push 2147483647");
}
