use rand::rngs::StdRng;
use rand::SeedableRng;
use tape_vm::driver::{crash_report, execute_or_crash};
use tape_vm::instruction::{Command, PushArgument};
use tape_vm::machine::{reads_next, MachineState};
use tape_vm::obfuscate::{
    dead_code, draw_noise, generate_fuxxor, insert_block, insert_dead_code, is_obfuscable,
    obfuscate_program, resolve_labels, strip_blanks, write_lines, DeadCode, Noise,
};
use tape_vm::parser::parse_program;
use tape_vm::program::Program;

fn run(program: &Program, input: &[u8]) -> (Vec<i32>, Vec<i32>, Vec<u8>) {
    let mut machine = MachineState::default();
    let mut output = Vec::new();
    let mut consumed = 0;
    while !machine.terminated {
        let next = input.get(consumed).copied();
        if reads_next(program, &machine) {
            consumed += 1;
        }
        assert!(crash_report(program, &machine, next).is_none());
        let (after, byte) = execute_or_crash(program, machine, next);
        machine = after;
        output.extend(byte);
    }
    (machine.tape, machine.stack, output)
}

const KINDS: [DeadCode; 7] = [
    DeadCode::Blank,
    DeadCode::PushDelete,
    DeadCode::Sum,
    DeadCode::Difference,
    DeadCode::Double,
    DeadCode::Ratio,
    DeadCode::Square,
];

fn is_small(command: &Command) -> bool {
    matches!(command, Command::Push(PushArgument::Const(c)) if (-3..10).contains(c))
}

fn is_factor(command: &Command) -> bool {
    matches!(command, Command::Push(PushArgument::Const(c)) if (3..10).contains(c))
}

#[test]
fn dead_code_has_the_shape_of_its_pattern() {
    let mut rng = StdRng::seed_from_u64(1);
    for _ in 0..50 {
        assert_eq!(dead_code(DeadCode::Blank, &mut rng), vec![Command::Null]);
        let block = dead_code(DeadCode::PushDelete, &mut rng);
        assert!(is_small(&block[0]));
        assert_eq!(block[1..], [Command::Del]);
        let block = dead_code(DeadCode::Sum, &mut rng);
        assert!(is_small(&block[0]) && is_small(&block[1]));
        assert_eq!(block[2..], [Command::Add, Command::Del]);
        let block = dead_code(DeadCode::Difference, &mut rng);
        assert!(is_small(&block[0]) && is_small(&block[1]));
        assert_eq!(block[2..], [Command::Sub, Command::Del]);
        let block = dead_code(DeadCode::Double, &mut rng);
        assert!(is_small(&block[0]));
        assert_eq!(block[1..], [Command::Dup, Command::Add, Command::Del]);
        let block = dead_code(DeadCode::Ratio, &mut rng);
        assert!(is_factor(&block[0]) && is_factor(&block[1]) && is_factor(&block[3]));
        assert_eq!(block[2], Command::Div);
        assert_eq!(block[4..], [Command::Mult, Command::Del]);
        let block = dead_code(DeadCode::Square, &mut rng);
        assert!(is_small(&block[0]) && is_factor(&block[3]));
        assert_eq!(block[1..3], [Command::Dup, Command::Mult]);
        assert_eq!(block[4..], [Command::Mult, Command::Del]);
    }
}

#[test]
fn the_constants_of_dead_code_vary() {
    let mut rng = StdRng::seed_from_u64(6);
    let mut small = std::collections::BTreeSet::new();
    let mut factors = std::collections::BTreeSet::new();
    for _ in 0..2000 {
        if let Command::Push(PushArgument::Const(c)) = dead_code(DeadCode::PushDelete, &mut rng)[0] {
            small.insert(c);
        }
        if let Command::Push(PushArgument::Const(c)) = dead_code(DeadCode::Ratio, &mut rng)[3] {
            factors.insert(c);
        }
    }
    assert_eq!(small.into_iter().collect::<Vec<i32>>(), (-3..10).collect::<Vec<i32>>());
    assert_eq!(factors.into_iter().collect::<Vec<i32>>(), (3..10).collect::<Vec<i32>>());
}

#[test]
fn dead_code_goes_in_at_every_position_but_the_end() {
    let mut rng = StdRng::seed_from_u64(7);
    let mut seen = [false; 3];
    for _ in 0..200 {
        let program = Program::from_lines(vec![Command::Left, Command::Right, Command::Pop]);
        let padded = insert_dead_code(program, DeadCode::Blank, 1, &mut rng);
        let at = padded.lines.iter().position(|c| *c == Command::Null).unwrap();
        seen[at] = true;
        assert_eq!(padded.lines.len(), 4);
    }
    assert_eq!(seen, [true, true, true]);
}

#[test]
fn dead_code_leaves_the_machine_as_it_was() {
    let mut rng = StdRng::seed_from_u64(2);
    for kind in KINDS {
        for _ in 0..50 {
            let mut lines = vec![Command::Push(PushArgument::Const(42)), Command::Pop];
            lines.extend(dead_code(kind, &mut rng));
            lines.push(Command::Push(PushArgument::Const(43)));
            let (tape, stack, output) = run(&Program::from_lines(lines), &[]);
            assert_eq!(tape, vec![42]);
            assert_eq!(stack, vec![43]);
            assert!(output.is_empty());
        }
    }
}

#[test]
fn a_block_goes_in_before_the_position() {
    let mut lines = vec![Command::Left, Command::Right];
    insert_block(&mut lines, 1, &vec![Command::Add, Command::Sub]);
    assert_eq!(lines, vec![Command::Left, Command::Add, Command::Sub, Command::Right]);
    insert_block(&mut lines, 4, &vec![Command::Dup]);
    insert_block(&mut lines, 0, &vec![Command::Del]);
    insert_block(&mut lines, 2, &vec![]);
    assert_eq!(
        lines,
        vec![
            Command::Del,
            Command::Left,
            Command::Add,
            Command::Sub,
            Command::Right,
            Command::Dup
        ]
    );
}

#[test]
fn empty_lines_are_taken_out() {
    let program = parse_program("\nleft\n\n\nright\n# note\n");
    assert_eq!(strip_blanks(&program.lines), vec![Command::Left, Command::Right]);
    assert_eq!(strip_blanks(&parse_program("\n\n").lines), vec![]);
}

#[test]
fn inserted_dead_code_keeps_the_commands_in_order() {
    let mut rng = StdRng::seed_from_u64(3);
    let program = parse_program("push 1\nright\nstart:\npush start\npop");
    let padded = insert_dead_code(program.duplicate(), DeadCode::Sum, 25, &mut rng);
    assert_eq!(padded.lines.len(), 5 + 25 * 4);
    let kept: Vec<Command> = padded
        .lines
        .iter()
        .filter(|command| !matches!(command, Command::Add | Command::Del) && !is_small(command))
        .cloned()
        .collect();
    assert_eq!(kept[..], program.lines[1..]);
    assert_eq!(padded.lines.last(), Some(&Command::Pop));
    let start = padded.lines.iter().position(|c| *c == Command::Label("start".to_string()));
    assert_eq!(padded.labels.get(&"start".to_string()), start);
    let same = insert_dead_code(program.duplicate(), DeadCode::Ratio, 0, &mut rng);
    assert_eq!(same.lines, program.lines);
    assert_eq!(same.labels.get(&"start".to_string()), Some(2));
}

#[test]
fn nothing_goes_into_a_program_without_lines() {
    let mut rng = StdRng::seed_from_u64(8);
    let mut untouched = StdRng::seed_from_u64(8);
    let empty = insert_dead_code(parse_program(""), DeadCode::Sum, 0, &mut rng);
    assert!(empty.lines.is_empty());
    assert_eq!(dead_code(DeadCode::Sum, &mut rng), dead_code(DeadCode::Sum, &mut untouched));
}

#[test]
fn labels_are_resolved_to_positions() {
    let program = parse_program("push end\nstart:\npush start\nend:\njmp");
    let plain = resolve_labels(program);
    assert_eq!(
        plain.lines,
        vec![
            Command::Push(PushArgument::Const(3)),
            Command::Null,
            Command::Push(PushArgument::Const(1)),
            Command::Null,
            Command::Jmp,
        ]
    );
    assert_eq!(plain.labels.get(&"end".to_string()), None);
}

#[test]
fn a_program_without_commands_or_with_unknown_labels_cannot_be_obfuscated() {
    assert!(is_obfuscable(&parse_program("left")));
    assert!(is_obfuscable(&parse_program("a:")));
    assert!(is_obfuscable(&parse_program("push a\na:")));
    assert!(!is_obfuscable(&parse_program("")));
    assert!(!is_obfuscable(&parse_program("\n# note\n")));
    assert!(!is_obfuscable(&parse_program("push a\nb:")));
}

#[test]
fn the_obfuscated_program_holds_no_labels() {
    let mut rng = StdRng::seed_from_u64(4);
    let program = parse_program("push end\nstart:\n\npush start\nend:\npop");
    let plain = obfuscate_program(program, &mut rng);
    assert!(plain
        .lines
        .iter()
        .all(|c| !matches!(c, Command::Label(_) | Command::Push(PushArgument::Label(_)))));
    let commands = 5 + 200 * (2 + 4 + 4 + 4) + 20 * (6 + 6);
    let blanks = plain.lines.iter().filter(|c| **c == Command::Null).count();
    assert_eq!(plain.lines.len() - blanks, commands - 2);
    assert!((2 + 100 + 100..=2 + 300 + 100).contains(&blanks));
}

#[test]
fn obfuscation_keeps_what_a_program_without_jumps_does() {
    let text = "read\nread\nadd\ndup\nprint\npop\nright\nright\npush 7\npush 2\ndiv\npop\nread\n\nprint\npusht\nleft\npusht";
    let program = parse_program(text);
    let expected = run(&program, &[1, 2, 3]);
    assert_eq!(expected, (vec![3, 0, 3], vec![3, 0], vec![3, 3]));
    for seed in 0..5 {
        let mut rng = StdRng::seed_from_u64(seed);
        let written = generate_fuxxor(program.duplicate(), &mut rng);
        assert_eq!(run(&parse_program(&written), &[1, 2, 3]), expected);
    }
}

#[test]
fn obfuscation_keeps_what_a_program_with_labels_does() {
    let text = "push 3\nloop:\ndup\npush 48\nadd\nprint\npush 1\nsub\ndup\npush loop\njmpc\npop";
    let program = parse_program(text);
    let expected = run(&program, &[]);
    assert_eq!(expected, (vec![0], vec![], vec![51, 50, 49]));
    for seed in 0..5 {
        let mut rng = StdRng::seed_from_u64(seed);
        let written = generate_fuxxor(program.duplicate(), &mut rng);
        assert_eq!(run(&parse_program(&written), &[]), expected);
    }
}

#[test]
fn the_same_seed_gives_the_same_text() {
    let program = parse_program("push 1\npop");
    let first = generate_fuxxor(program.duplicate(), &mut StdRng::seed_from_u64(9));
    let second = generate_fuxxor(program.duplicate(), &mut StdRng::seed_from_u64(9));
    let third = generate_fuxxor(program.duplicate(), &mut StdRng::seed_from_u64(10));
    assert_eq!(first, second);
    assert_ne!(first, third);
}

#[test]
fn the_written_text_is_indented_by_the_choices() {
    let quiet = Noise { trailing_space: false, grow_space: false, grow_tab: false, shrink: false };
    let lines = vec![Command::Left, Command::Right, Command::Null, Command::Dup, Command::Del];
    let noise = vec![
        Noise { grow_space: true, grow_tab: true, ..quiet },
        Noise { trailing_space: true, shrink: true, ..quiet },
        Noise { grow_tab: true, shrink: true, ..quiet },
        Noise { shrink: true, ..quiet },
        Noise { shrink: true, ..quiet },
    ];
    assert_eq!(write_lines(&lines, &noise), "left\n \tright \n \n dup\ndel\n");
    assert_eq!(write_lines(&vec![], &vec![]), "");
}

#[test]
fn noise_is_drawn_for_each_line() {
    let mut rng = StdRng::seed_from_u64(5);
    let noise = draw_noise(4000, &mut rng);
    assert_eq!(noise.len(), 4000);
    assert!(noise.iter().any(|n| n.trailing_space) && noise.iter().any(|n| !n.trailing_space));
    assert!(noise.iter().any(|n| n.grow_space) && noise.iter().any(|n| !n.grow_space));
    assert!(noise.iter().any(|n| n.grow_tab) && noise.iter().any(|n| !n.grow_tab));
    assert!(noise.iter().any(|n| n.shrink) && noise.iter().any(|n| !n.shrink));
    assert!(draw_noise(0, &mut rng).is_empty());
}
