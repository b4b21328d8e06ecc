use tape_vm::instruction::{Command, PushArgument};
use tape_vm::parser::{is_comment, parse_program, try_parse_program};
use tape_vm::obfuscate::render_program;

fn label(name: &str) -> Command {
    Command::Label(name.to_string())
}

fn push(value: i32) -> Command {
    Command::Push(PushArgument::Const(value))
}

fn push_label(name: &str) -> Command {
    Command::Push(PushArgument::Label(name.to_string()))
}

#[test]
fn each_mnemonic_is_its_command() {
    let text = "left\nright\npusht\npop\ndup\ndel\neq\nnot\ngt\nlt\nadd\nsub\nmult\ndiv\nmod\nread\nprint\njmp\njmpc";
    assert_eq!(
        parse_program(text).lines,
        vec![
            Command::Left,
            Command::Right,
            Command::PushT,
            Command::Pop,
            Command::Dup,
            Command::Del,
            Command::Eq,
            Command::Not,
            Command::Gt,
            Command::Lt,
            Command::Add,
            Command::Sub,
            Command::Mult,
            Command::Div,
            Command::Mod,
            Command::Read,
            Command::Print,
            Command::Jmp,
            Command::JmpC,
        ]
    );
}

#[test]
fn every_line_is_one_command() {
    let program = parse_program("push 1\n\n# note\n; note\n// note\n   \nstart:\npush start\n");
    assert_eq!(
        program.lines,
        vec![
            push(1),
            Command::Null,
            Command::Null,
            Command::Null,
            Command::Null,
            Command::Null,
            label("start"),
            push_label("start"),
        ]
    );
    assert_eq!(program.labels.get(&"start".to_string()), Some(6));
    assert_eq!(program.labels.get(&"note".to_string()), None);
}

#[test]
fn the_last_newline_ends_no_further_line() {
    assert_eq!(parse_program("").lines, vec![]);
    assert_eq!(parse_program("\n").lines, vec![Command::Null]);
    assert_eq!(parse_program("left").lines, vec![Command::Left]);
    assert_eq!(parse_program("left\n").lines, vec![Command::Left]);
    assert_eq!(parse_program("left\n\n").lines, vec![Command::Left, Command::Null]);
    assert_eq!(parse_program("left\r\nright\r\n").lines, vec![Command::Left, Command::Right]);
}

#[test]
fn lines_are_trimmed_and_folded_to_lowercase() {
    let program = parse_program("  LEFT\t\n\tPush  12  \n Loop: \nPUSH LOOP\n\u{a0}Right\u{3000}\n");
    assert_eq!(
        program.lines,
        vec![Command::Left, push(12), label("loop"), push_label("loop"), Command::Right]
    );
    assert_eq!(parse_program("\u{c9}T\u{c9}:").lines, vec![label("\u{e9}t\u{e9}")]);
    assert_eq!(parse_program("push A_b-Z[9]").lines, vec![push_label("a_b-z[9]")]);
}

#[test]
fn what_follows_the_operand_is_ignored() {
    assert_eq!(parse_program("left 1 2 3\npush 4 5 6").lines, vec![Command::Left, push(4)]);
}

#[test]
fn push_takes_an_integer_or_a_label() {
    assert_eq!(
        parse_program("push 0\npush -12\npush +12\npush 007\npush -0").lines,
        vec![push(0), push(-12), push(12), push(7), push(0)]
    );
    assert_eq!(
        parse_program("push 2147483647\npush -2147483648").lines,
        vec![push(i32::MAX), push(i32::MIN)]
    );
    assert_eq!(
        parse_program("push 2147483648\npush -2147483649\npush 99999999999999999999").lines,
        vec![
            push_label("2147483648"),
            push_label("-2147483649"),
            push_label("99999999999999999999")
        ]
    );
    assert_eq!(
        parse_program("push -\npush +\npush 1x\npush --1\npush x1").lines,
        vec![
            push_label("-"),
            push_label("+"),
            push_label("1x"),
            push_label("--1"),
            push_label("x1")
        ]
    );
}

#[test]
fn a_label_is_named_by_what_stands_before_its_first_colon() {
    assert_eq!(
        parse_program("a:\na:b:\nleft:\npush:\n#:\n/:").lines,
        vec![label("a"), label("a"), label("left"), label("push"), Command::Null, label("/")]
    );
}

#[test]
fn a_word_that_is_no_mnemonic_and_no_label_is_reported() {
    let error = try_parse_program("left\n  Jump 3\nright").err().unwrap();
    assert_eq!(error.line, 1);
    assert_eq!(error.text, "jump 3");
    let error = try_parse_program("push").err().unwrap();
    assert_eq!(error.line, 0);
    assert_eq!(error.text, "push");
    let error = try_parse_program("a:\nb:\nlabel:x").err().unwrap();
    assert_eq!(error.line, 2);
    assert!(try_parse_program("left\nright").is_ok());
}

#[test]
fn a_label_without_a_name_is_reported() {
    let error = try_parse_program("a:\n:\nb:").err().unwrap();
    assert_eq!(error.line, 1);
    assert_eq!(error.text, ":");
    let error = try_parse_program(":a:").err().unwrap();
    assert_eq!(error.line, 0);
    assert_eq!(error.text, ":a:");
}

#[test]
fn comments_start_with_their_marks() {
    assert!(is_comment("# a"));
    assert!(is_comment("#"));
    assert!(is_comment(";"));
    assert!(is_comment("; a"));
    assert!(is_comment("//"));
    assert!(is_comment("// a"));
    assert!(!is_comment("/"));
    assert!(!is_comment("/ /"));
    assert!(!is_comment(""));
    assert!(!is_comment(" #"));
    assert!(!is_comment("left # a"));
}

#[test]
fn a_program_is_rendered_line_by_line() {
    let program = parse_program("  PUSH 007 \n\nLoop:  \npush LOOP\n# note\njmp");
    assert_eq!(render_program(&program), "push 7\n\nloop:\npush loop\n\njmp\n");
    assert_eq!(render_program(&parse_program("")), "");
}

#[test]
fn parsing_the_rendering_changes_nothing() {
    let text = "  PUSH 007 \n\nLoop:  \npush LOOP\n# note\njmp\nA:B:\npush -0\npush 99999999999\nleft:";
    let once = render_program(&parse_program(text));
    let twice = render_program(&parse_program(&once));
    assert_eq!(once, twice);
    assert_eq!(parse_program(&once).lines, parse_program(text).lines);
}
