//! Writing and reading agree: the text that a program is written as is read as that
//! program again.

use vstd::prelude::*;
use crate::instruction::{decimal, decimal_digits, digit_char, render, Instruction};
use crate::obfuscate::{
    indent_at, obfuscation, quiet, rendering, serialized, written, written_line, Insertion, Noise,
};
use crate::parser::{
    digits_value, find_colon, int_literal, is_comment_text, is_digit, lemma_colon_within,
    line_meaning, lines_of, meaning, normalized, opcode, parse_line, scan_lines, unsigned_part,
    well_formed_text,
};
use crate::text::{
    ascii_lowercase, ascii_lowercase_char, is_ascii_text, is_whitespace, lemma_skip_bounds,
    lemma_trim_end_bounds, skip_space, skip_word, trim, trim_end,
};

verus! {

/// Whether `c` is an ASCII character that is neither white space nor a capital
/// letter.
pub open spec fn is_plain_char(c: char) -> bool {
    c <= '\u{7f}' && !is_whitespace(c) && !('A' <= c <= 'Z')
}

/// Whether `s` is made of ASCII characters that are neither white space nor capital
/// letters.
pub open spec fn is_plain_word(s: Seq<char>) -> bool {
    forall|i: int| 0 <= i < s.len() ==> is_plain_char(#[trigger] s[i])
}

/// Whether `s` is a line as the parser reads an ASCII line: without capital letters,
/// and without white space at its start and at its end.
pub open spec fn is_clean_line(s: Seq<char>) -> bool {
    &&& forall|i: int| 0 <= i < s.len() ==> (#[trigger] s[i]) <= '\u{7f}' && !('A' <= s[i] <= 'Z')
    &&& s.len() > 0 ==> !is_whitespace(s[0]) && !is_whitespace(s.last())
}

/// A word ends where the white space begins.
proof fn lemma_word_ends(s: Seq<char>, from: int, end: int)
    requires
        0 <= from <= end <= s.len(),
        forall|i: int| from <= i < end ==> !is_whitespace(#[trigger] s[i]),
        end == s.len() || is_whitespace(s[end]),
    ensures
        skip_word(s, from) == end,
    decreases end - from,
{
    if from < end {
        assert(!is_whitespace(s[from]));
        lemma_word_ends(s, from + 1, end);
    }
}

/// White space ends where a word begins.
proof fn lemma_space_ends(s: Seq<char>, from: int, end: int)
    requires
        0 <= from <= end <= s.len(),
        forall|i: int| from <= i < end ==> is_whitespace(#[trigger] s[i]),
        end == s.len() || !is_whitespace(s[end]),
    ensures
        skip_space(s, from) == end,
    decreases end - from,
{
    if from < end {
        assert(is_whitespace(s[from]));
        lemma_space_ends(s, from + 1, end);
    }
}

/// The colon is found where the name ends.
proof fn lemma_colon_found(s: Seq<char>, from: int, end: int)
    requires
        0 <= from <= end <= s.len(),
        forall|i: int| from <= i < end ==> (#[trigger] s[i]) != ':',
        end == s.len() || s[end] == ':',
    ensures
        find_colon(s, from) == end,
    decreases end - from,
{
    if from < end {
        assert(s[from] != ':');
        lemma_colon_found(s, from + 1, end);
    }
}

/// A clean line is read as it stands.
proof fn lemma_clean_line_stays(s: Seq<char>)
    requires
        is_clean_line(s),
    ensures
        normalized(s) == s,
{
    if s.len() > 0 {
        assert(skip_space(s, 0) == 0);
        assert(trim_end(s, s.len() as int) == s.len());
        assert(s.subrange(0, s.len() as int) =~= s);
    }
    assert(trim(s) =~= s);
    assert(is_ascii_text(s));
    assert(ascii_lowercase(s) =~= s);
}

/// The parser reads an ASCII line as a clean line.
proof fn lemma_normalized_clean(raw: Seq<char>)
    requires
        is_ascii_text(raw),
    ensures
        is_clean_line(normalized(raw)),
{
    let start = skip_space(raw, 0);
    let end = trim_end(raw, raw.len() as int);
    lemma_skip_bounds(raw, 0);
    lemma_trim_end_bounds(raw, raw.len() as int);
    let trimmed = trim(raw);
    assert(is_ascii_text(trimmed)) by {
        assert forall|i: int| 0 <= i < trimmed.len() implies (#[trigger] trimmed[i])
            <= '\u{7f}' by {
            assert(trimmed[i] == raw[start + i]);
        }
    }
    let line = normalized(raw);
    assert(line == ascii_lowercase(trimmed));
    assert forall|i: int| 0 <= i < line.len() implies (#[trigger] line[i]) <= '\u{7f}' && !('A'
        <= line[i] <= 'Z') by {
        assert(line[i] == ascii_lowercase_char(trimmed[i]));
        assert(trimmed[i] <= '\u{7f}');
    }
    if line.len() > 0 {
        assert(trimmed[0] == raw[start]);
        assert(trimmed.last() == raw[end - 1]);
        assert(line[0] == ascii_lowercase_char(trimmed[0]));
        assert(line.last() == ascii_lowercase_char(trimmed.last()));
    }
}

/// The digits of a number are digits, and write that number.
proof fn lemma_digits_round_trip(n: nat)
    ensures
        decimal_digits(n).len() > 0,
        forall|i: int| 0 <= i < decimal_digits(n).len() ==> is_digit(#[trigger] decimal_digits(n)[i]),
        digits_value(decimal_digits(n)) == n,
    decreases n,
{
    let d = (n % 10) as int;
    assert(is_digit(digit_char(d)) && digit_char(d) as int - '0' as int == d);
    if n < 10 {
        let one = seq![digit_char(n as int)];
        assert(one.drop_last() =~= Seq::<char>::empty());
        assert(digits_value(one.drop_last()) == 0);
    } else {
        lemma_digits_round_trip(n / 10);
        let digits = decimal_digits(n);
        assert(digits.drop_last() =~= decimal_digits(n / 10));
        assert forall|i: int| 0 <= i < digits.len() implies is_digit(#[trigger] digits[i]) by {
            if i < digits.len() - 1 {
                assert(digits[i] == decimal_digits(n / 10)[i]);
            }
        }
    }
}

/// The decimal notation of a 32-bit integer is a literal of that integer, made of
/// plain characters.
proof fn lemma_decimal_round_trip(value: i32)
    ensures
        int_literal(decimal(value as int)) == Some(value),
        decimal(value as int).len() > 0,
        is_plain_word(decimal(value as int)),
{
    let text = decimal(value as int);
    if value < 0 {
        let digits = decimal_digits((-value) as nat);
        lemma_digits_round_trip((-value) as nat);
        assert(text[0] == '-');
        assert(unsigned_part(text) =~= digits);
        assert forall|i: int| 0 <= i < text.len() implies is_plain_char(#[trigger] text[i]) by {
            if i > 0 {
                assert(text[i] == digits[i - 1]);
                assert(is_digit(digits[i - 1]));
            }
        }
    } else {
        let digits = decimal_digits(value as nat);
        lemma_digits_round_trip(value as nat);
        assert(is_digit(digits[0]));
        assert(unsigned_part(text) == digits);
        assert forall|i: int| 0 <= i < text.len() implies is_plain_char(#[trigger] text[i]) by {
            assert(is_digit(digits[i]));
        }
    }
}

/// Whether `instruction` is one that the parser gives for an ASCII line: the name
/// of a label that it refers to is a word that is no integer literal, and the name
/// of a label that it declares is a word that holds no colon and starts no comment.
pub open spec fn is_canonical(instruction: Instruction) -> bool {
    match instruction {
        Instruction::PushLabel(name) => name.len() > 0 && is_plain_word(name) && int_literal(name)
            is None,
        Instruction::LabelDecl(name) => name.len() > 0 && is_plain_word(name) && !is_comment_text(
            name.push(':'),
        ) && forall|i: int| 0 <= i < name.len() ==> (#[trigger] name[i]) != ':',
        _ => true,
    }
}

/// The length and the first two characters of a word: enough to tell the mnemonics
/// apart.
pub open spec fn initials(word: Seq<char>) -> (nat, char, char) {
    (word.len(), word[0], word[1])
}

/// What the mnemonics and `push` are made of.
proof fn lemma_words()
    ensures
        initials("left"@) == (4nat, 'l', 'e'),
        initials("right"@) == (5nat, 'r', 'i'),
        initials("pusht"@) == (5nat, 'p', 'u'),
        initials("push"@) == (4nat, 'p', 'u'),
        initials("pop"@) == (3nat, 'p', 'o'),
        initials("dup"@) == (3nat, 'd', 'u'),
        initials("del"@) == (3nat, 'd', 'e'),
        initials("eq"@) == (2nat, 'e', 'q'),
        initials("not"@) == (3nat, 'n', 'o'),
        initials("gt"@) == (2nat, 'g', 't'),
        initials("lt"@) == (2nat, 'l', 't'),
        initials("add"@) == (3nat, 'a', 'd'),
        initials("sub"@) == (3nat, 's', 'u'),
        initials("mult"@) == (4nat, 'm', 'u'),
        initials("div"@) == (3nat, 'd', 'i'),
        initials("mod"@) == (3nat, 'm', 'o'),
        initials("read"@) == (4nat, 'r', 'e'),
        initials("print"@) == (5nat, 'p', 'r'),
        initials("jmp"@) == (3nat, 'j', 'm'),
        initials("jmpc"@) == (4nat, 'j', 'm'),
        is_plain_word("left"@),
        "left"@.last() == 't',
        is_plain_word("right"@),
        "right"@.last() == 't',
        is_plain_word("pusht"@),
        "pusht"@.last() == 't',
        is_plain_word("push"@),
        "push"@.last() == 'h',
        is_plain_word("pop"@),
        "pop"@.last() == 'p',
        is_plain_word("dup"@),
        "dup"@.last() == 'p',
        is_plain_word("del"@),
        "del"@.last() == 'l',
        is_plain_word("eq"@),
        "eq"@.last() == 'q',
        is_plain_word("not"@),
        "not"@.last() == 't',
        is_plain_word("gt"@),
        "gt"@.last() == 't',
        is_plain_word("lt"@),
        "lt"@.last() == 't',
        is_plain_word("add"@),
        "add"@.last() == 'd',
        is_plain_word("sub"@),
        "sub"@.last() == 'b',
        is_plain_word("mult"@),
        "mult"@.last() == 't',
        is_plain_word("div"@),
        "div"@.last() == 'v',
        is_plain_word("mod"@),
        "mod"@.last() == 'd',
        is_plain_word("read"@),
        "read"@.last() == 'd',
        is_plain_word("print"@),
        "print"@.last() == 't',
        is_plain_word("jmp"@),
        "jmp"@.last() == 'p',
        is_plain_word("jmpc"@),
        "jmpc"@.last() == 'c',
{
    reveal_strlit("left");
    reveal_strlit("right");
    reveal_strlit("pusht");
    reveal_strlit("push");
    reveal_strlit("pop");
    reveal_strlit("dup");
    reveal_strlit("del");
    reveal_strlit("eq");
    reveal_strlit("not");
    reveal_strlit("gt");
    reveal_strlit("lt");
    reveal_strlit("add");
    reveal_strlit("sub");
    reveal_strlit("mult");
    reveal_strlit("div");
    reveal_strlit("mod");
    reveal_strlit("read");
    reveal_strlit("print");
    reveal_strlit("jmp");
    reveal_strlit("jmpc");
    assert(initials("left"@) == (4nat, 'l', 'e'));
    assert(is_plain_word("left"@)) by {
        let word = "left"@;
        assert(word[0] == 'l' && word[1] == 'e' && word[2] == 'f' && word[3] == 't');
    }
    assert(initials("right"@) == (5nat, 'r', 'i'));
    assert(is_plain_word("right"@)) by {
        let word = "right"@;
        assert(word[0] == 'r' && word[1] == 'i' && word[2] == 'g' && word[3] == 'h' && word[4] == 't');
    }
    assert(initials("pusht"@) == (5nat, 'p', 'u'));
    assert(is_plain_word("pusht"@)) by {
        let word = "pusht"@;
        assert(word[0] == 'p' && word[1] == 'u' && word[2] == 's' && word[3] == 'h' && word[4] == 't');
    }
    assert(initials("push"@) == (4nat, 'p', 'u'));
    assert(is_plain_word("push"@)) by {
        let word = "push"@;
        assert(word[0] == 'p' && word[1] == 'u' && word[2] == 's' && word[3] == 'h');
    }
    assert(initials("pop"@) == (3nat, 'p', 'o'));
    assert(is_plain_word("pop"@)) by {
        let word = "pop"@;
        assert(word[0] == 'p' && word[1] == 'o' && word[2] == 'p');
    }
    assert(initials("dup"@) == (3nat, 'd', 'u'));
    assert(is_plain_word("dup"@)) by {
        let word = "dup"@;
        assert(word[0] == 'd' && word[1] == 'u' && word[2] == 'p');
    }
    assert(initials("del"@) == (3nat, 'd', 'e'));
    assert(is_plain_word("del"@)) by {
        let word = "del"@;
        assert(word[0] == 'd' && word[1] == 'e' && word[2] == 'l');
    }
    assert(initials("eq"@) == (2nat, 'e', 'q'));
    assert(is_plain_word("eq"@)) by {
        let word = "eq"@;
        assert(word[0] == 'e' && word[1] == 'q');
    }
    assert(initials("not"@) == (3nat, 'n', 'o'));
    assert(is_plain_word("not"@)) by {
        let word = "not"@;
        assert(word[0] == 'n' && word[1] == 'o' && word[2] == 't');
    }
    assert(initials("gt"@) == (2nat, 'g', 't'));
    assert(is_plain_word("gt"@)) by {
        let word = "gt"@;
        assert(word[0] == 'g' && word[1] == 't');
    }
    assert(initials("lt"@) == (2nat, 'l', 't'));
    assert(is_plain_word("lt"@)) by {
        let word = "lt"@;
        assert(word[0] == 'l' && word[1] == 't');
    }
    assert(initials("add"@) == (3nat, 'a', 'd'));
    assert(is_plain_word("add"@)) by {
        let word = "add"@;
        assert(word[0] == 'a' && word[1] == 'd' && word[2] == 'd');
    }
    assert(initials("sub"@) == (3nat, 's', 'u'));
    assert(is_plain_word("sub"@)) by {
        let word = "sub"@;
        assert(word[0] == 's' && word[1] == 'u' && word[2] == 'b');
    }
    assert(initials("mult"@) == (4nat, 'm', 'u'));
    assert(is_plain_word("mult"@)) by {
        let word = "mult"@;
        assert(word[0] == 'm' && word[1] == 'u' && word[2] == 'l' && word[3] == 't');
    }
    assert(initials("div"@) == (3nat, 'd', 'i'));
    assert(is_plain_word("div"@)) by {
        let word = "div"@;
        assert(word[0] == 'd' && word[1] == 'i' && word[2] == 'v');
    }
    assert(initials("mod"@) == (3nat, 'm', 'o'));
    assert(is_plain_word("mod"@)) by {
        let word = "mod"@;
        assert(word[0] == 'm' && word[1] == 'o' && word[2] == 'd');
    }
    assert(initials("read"@) == (4nat, 'r', 'e'));
    assert(is_plain_word("read"@)) by {
        let word = "read"@;
        assert(word[0] == 'r' && word[1] == 'e' && word[2] == 'a' && word[3] == 'd');
    }
    assert(initials("print"@) == (5nat, 'p', 'r'));
    assert(is_plain_word("print"@)) by {
        let word = "print"@;
        assert(word[0] == 'p' && word[1] == 'r' && word[2] == 'i' && word[3] == 'n' && word[4] == 't');
    }
    assert(initials("jmp"@) == (3nat, 'j', 'm'));
    assert(is_plain_word("jmp"@)) by {
        let word = "jmp"@;
        assert(word[0] == 'j' && word[1] == 'm' && word[2] == 'p');
    }
    assert(initials("jmpc"@) == (4nat, 'j', 'm'));
    assert(is_plain_word("jmpc"@)) by {
        let word = "jmpc"@;
        assert(word[0] == 'j' && word[1] == 'm' && word[2] == 'p' && word[3] == 'c');
    }
}

/// The mnemonics are plain words of two characters or more, none of them is `push`,
/// and each stands for the instruction that is written by it.
proof fn lemma_mnemonics(word: Seq<char>)
    ensures
        opcode(word) is Some ==> word.len() >= 2 && is_plain_word(word) && word != "push"@
            && render(opcode(word).unwrap()) == word && word.last() != ':' && word[0] != '/'
            && word[0] != '#' && word[0] != ';',
        opcode("push"@) is None,
{
    lemma_words();
    if opcode(word) is Some {
        assert(initials(word) == initials(word));
    }
}

/// Each instruction without operand is written by its mnemonic.
proof fn lemma_rendered_mnemonic(instruction: Instruction)
    requires
        !(instruction is PushConst),
        !(instruction is PushLabel),
        !(instruction is LabelDecl),
        !(instruction is NoOp),
    ensures
        opcode(render(instruction)) == Some(instruction),
{
    lemma_words();
}

/// The text of `push` with an operand that is a plain word is read as `push` with
/// that operand.
proof fn lemma_push_line(operand: Seq<char>)
    requires
        operand.len() > 0,
        is_plain_word(operand),
    ensures
        is_clean_line("push "@ + operand),
        forall|i: int| 0 <= i < ("push "@ + operand).len() ==> (#[trigger] ("push "@ + operand)[i])
            != '\n',
        parse_line("push "@ + operand) == Some(
            match int_literal(operand) {
                Some(value) => Instruction::PushConst(value),
                None => Instruction::PushLabel(operand),
            },
        ),
{
    let line = "push "@ + operand;
    let push = "push"@;
    lemma_words();
    lemma_mnemonics(push);
    reveal_strlit("push ");
    reveal_strlit("push");
    assert("push "@ =~= push.push(' '));
    assert(initials(push) == initials(push));
    assert(line.len() == 5 + operand.len());
    assert forall|i: int| 0 <= i < line.len() implies (if i < 4 {
        (#[trigger] line[i]) == push[i] && is_plain_char(line[i])
    } else if i == 4 {
        line[i] == ' '
    } else {
        line[i] == operand[i - 5] && is_plain_char(line[i])
    }) by {
        if i < 4 {
            assert(is_plain_char(push[i]));
        } else if i > 4 {
            assert(is_plain_char(operand[i - 5]));
        }
    }
    assert(is_plain_char(line[0]));
    assert(is_plain_char(line[line.len() - 1]));
    assert(line.last() == line[line.len() - 1]);
    lemma_space_ends(line, 0, 0);
    lemma_word_ends(line, 0, 4);
    lemma_space_ends(line, 4, 5);
    lemma_word_ends(line, 5, line.len() as int);
    assert(line.subrange(0, 4) =~= push);
    assert(line.subrange(5, line.len() as int) =~= operand);
    assert(line[0] == 'p');
}

/// The text of a canonical instruction is a clean line without a newline that the
/// parser reads as that instruction.
proof fn lemma_render_parses(instruction: Instruction)
    requires
        is_canonical(instruction),
    ensures
        is_clean_line(render(instruction)),
        forall|i: int| 0 <= i < render(instruction).len() ==> (#[trigger] render(instruction)[i])
            != '\n',
        parse_line(render(instruction)) == Some(instruction),
{
    let line = render(instruction);
    match instruction {
        Instruction::NoOp => {
            reveal_strlit("");
        },
        Instruction::PushConst(c) => {
            lemma_decimal_round_trip(c);
            lemma_push_line(decimal(c as int));
        },
        Instruction::PushLabel(name) => {
            lemma_push_line(name);
        },
        Instruction::LabelDecl(name) => {
            reveal_strlit(":");
            assert(line =~= name.push(':'));
            lemma_words();
            lemma_mnemonics(line);
            assert forall|i: int| 0 <= i < line.len() implies is_plain_char(#[trigger] line[i]) by {
                if i < name.len() {
                    assert(is_plain_char(name[i]));
                }
            }
            assert(is_plain_char(line[0]));
            assert(is_plain_char(line[line.len() - 1]));
            lemma_space_ends(line, 0, 0);
            lemma_word_ends(line, 0, line.len() as int);
            assert(line.subrange(0, line.len() as int) =~= line);
            assert forall|i: int| 0 <= i < name.len() implies (#[trigger] line[i]) != ':' by {
                assert(name[i] != ':');
            }
            lemma_colon_found(line, 0, name.len() as int);
            assert(line.take(name.len() as int) =~= name);
        },
        _ => {
            lemma_rendered_mnemonic(instruction);
            lemma_mnemonics(line);
            assert(is_plain_char(line[0]));
            assert(is_plain_char(line[line.len() - 1]));
            assert forall|i: int| 0 <= i < line.len() implies !is_whitespace(#[trigger] line[i]) by {
                assert(is_plain_char(line[i]));
            }
            lemma_space_ends(line, 0, 0);
            lemma_word_ends(line, 0, line.len() as int);
            assert(line.subrange(0, line.len() as int) =~= line);
        },
    }
}

/// What the parser reads from a clean line is canonical.
proof fn lemma_parsed_canonical(line: Seq<char>)
    requires
        is_clean_line(line),
        parse_line(line) is Some,
    ensures
        is_canonical(parse_line(line).unwrap()),
{
    let a = skip_space(line, 0);
    lemma_skip_bounds(line, 0);
    lemma_skip_bounds(line, a);
    let b = skip_word(line, a);
    lemma_skip_bounds(line, b);
    let c = skip_space(line, b);
    lemma_skip_bounds(line, c);
    let d = skip_word(line, c);
    let word = line.subrange(a, b);
    let operand = line.subrange(c, d);
    lemma_mnemonics(word);
    match parse_line(line).unwrap() {
        Instruction::PushLabel(name) => {
            assert(name == operand);
            assert forall|i: int| 0 <= i < name.len() implies is_plain_char(#[trigger] name[i]) by {
                assert(name[i] == line[c + i]);
            }
        },
        Instruction::LabelDecl(name) => {
            lemma_colon_within(word, 0);
            let colon = find_colon(word, 0);
            assert(name == word.take(colon));
            assert(a == 0);
            assert forall|i: int| 0 <= i < name.len() implies is_plain_char(#[trigger] name[i])
                && name[i] != ':' by {
                assert(name[i] == word[i]);
                assert(word[i] == line[a + i]);
            }
            let full = name.push(':');
            if name.len() >= 1 {
                assert(full[0] == name[0] && name[0] == word[0] && word[0] == line[0]);
            }
            if name.len() >= 2 {
                assert(full[1] == name[1] && name[1] == word[1] && word[1] == line[1]);
            }
        },
        _ => {},
    }
}

/// Text without a newline that follows a text goes on with its open line.
proof fn lemma_scan_open(text: Seq<char>, more: Seq<char>)
    requires
        forall|i: int| 0 <= i < more.len() ==> (#[trigger] more[i]) != '\n',
    ensures
        scan_lines(text + more) == (scan_lines(text).0, scan_lines(text).1 + more),
    decreases more.len(),
{
    if more.len() == 0 {
        assert(text + more =~= text);
        assert(scan_lines(text).1 + more =~= scan_lines(text).1);
    } else {
        lemma_scan_open(text, more.drop_last());
        assert((text + more).drop_last() =~= text + more.drop_last());
        assert(more.last() == more[more.len() - 1]);
        assert(scan_lines(text).1 + more =~= (scan_lines(text).1 + more.drop_last()).push(
            more.last(),
        ));
    }
}

/// Whether `s` is made of spaces and tabs.
pub open spec fn is_blank(s: Seq<char>) -> bool {
    forall|i: int| 0 <= i < s.len() ==> (#[trigger] s[i]) == ' ' || s[i] == '\t'
}

/// The white space at the end stops where the text does.
proof fn lemma_trim_end_found(s: Seq<char>, up_to: int, end: int)
    requires
        0 <= end <= up_to <= s.len(),
        forall|i: int| end <= i < up_to ==> is_whitespace(#[trigger] s[i]),
        end == 0 || !is_whitespace(s[end - 1]),
    ensures
        trim_end(s, up_to) == end,
    decreases up_to - end,
{
    if end < up_to {
        assert(is_whitespace(s[up_to - 1]));
        lemma_trim_end_found(s, up_to - 1, end);
    }
}

/// A clean line between spaces and tabs is read as it stands.
proof fn lemma_padded_line(indent: Seq<char>, line: Seq<char>, tail: Seq<char>)
    requires
        is_blank(indent),
        is_blank(tail),
        is_clean_line(line),
    ensures
        normalized(indent + line + tail) == line,
{
    let raw = indent + line + tail;
    let start = indent.len() as int;
    let end = start + line.len();
    assert forall|i: int| 0 <= i < raw.len() implies (if i < start {
        (#[trigger] raw[i]) == indent[i] && is_whitespace(raw[i])
    } else if i < end {
        raw[i] == line[i - start]
    } else {
        raw[i] == tail[i - end] && is_whitespace(raw[i])
    }) by {
        if i < start {
            assert(indent[i] == ' ' || indent[i] == '\t');
        } else if i >= end {
            assert(tail[i - end] == ' ' || tail[i - end] == '\t');
        }
    }
    if line.len() == 0 {
        lemma_space_ends(raw, 0, raw.len() as int);
        lemma_trim_end_found(raw, raw.len() as int, 0);
        assert(trim(raw) =~= line);
    } else {
        assert(raw[start] == line[0]);
        assert(raw[end - 1] == line[line.len() - 1]);
        assert(line.last() == line[line.len() - 1]);
        lemma_space_ends(raw, 0, start);
        lemma_trim_end_found(raw, raw.len() as int, end);
        assert(raw.subrange(start, end) =~= line);
    }
    assert(trim(raw) == line);
    lemma_clean_line_stays(line);
    assert(is_ascii_text(line));
    assert(ascii_lowercase(line) =~= line);
}

/// The indentation is made of spaces and tabs.
proof fn lemma_indent_blank(noise: Seq<Noise>, line: int)
    ensures
        is_blank(indent_at(noise, line)),
    decreases line,
{
    if line > 0 {
        lemma_indent_blank(noise, line - 1);
        let before = indent_at(noise, line - 1);
        let choices = noise[line - 1];
        let with_space = if choices.grow_space {
            before.push(' ')
        } else {
            before
        };
        let with_tab = if choices.grow_tab {
            with_space.push('\t')
        } else {
            with_space
        };
        assert(is_blank(with_space));
        assert(is_blank(with_tab));
        if with_tab.len() > 0 {
            assert forall|i: int| 0 <= i < with_tab.drop_last().len() implies (
            #[trigger] with_tab.drop_last()[i]) == ' ' || with_tab.drop_last()[i] == '\t' by {
                assert(with_tab[i] == ' ' || with_tab[i] == '\t');
            }
        }
    }
}

/// Line `i` of a written text, without its newline.
pub open spec fn written_body(lines: Seq<Instruction>, noise: Seq<Noise>, i: int) -> Seq<char> {
    indent_at(noise, i) + render(lines[i]) + if noise[i].trailing_space {
        seq![' ']
    } else {
        Seq::empty()
    }
}

/// The lines of a written text are the texts of the instructions, each with its
/// indentation and the space after it.
proof fn lemma_lines_of_written(lines: Seq<Instruction>, noise: Seq<Noise>, count: int)
    requires
        0 <= count <= lines.len(),
        forall|k: int| 0 <= k < lines.len() ==> is_canonical(#[trigger] lines[k]),
    ensures
        scan_lines(written(lines, noise, count)) == (
            Seq::new(count as nat, |i: int| written_body(lines, noise, i)),
            Seq::<char>::empty(),
        ),
    decreases count,
{
    if count > 0 {
        lemma_lines_of_written(lines, noise, count - 1);
        let before = written(lines, noise, count - 1);
        let body = written_body(lines, noise, count - 1);
        let indent = indent_at(noise, count - 1);
        let line = render(lines[count - 1]);
        assert(written_line(lines[count - 1], indent, noise[count - 1]) =~= body.push('\n'));
        lemma_indent_blank(noise, count - 1);
        assert(is_canonical(lines[count - 1]));
        lemma_render_parses(lines[count - 1]);
        assert forall|i: int| 0 <= i < body.len() implies (#[trigger] body[i]) != '\n' by {
            if i < indent.len() {
                assert(indent[i] == ' ' || indent[i] == '\t');
            } else if i < indent.len() + line.len() {
                assert(render(lines[count - 1])[i - indent.len()] != '\n');
            }
        }
        lemma_scan_open(before, body);
        let whole = before + body.push('\n');
        assert(whole.drop_last() =~= before + body);
        assert(Seq::<char>::empty() + body =~= body);
        assert(scan_lines(whole).0 =~= Seq::new(
            count as nat,
            |i: int| written_body(lines, noise, i),
        ));
    } else {
        assert(scan_lines(written(lines, noise, count)).0 =~= Seq::new(
            count as nat,
            |i: int| written_body(lines, noise, i),
        ));
    }
}

/// A written text is read as it was written: whatever white space was chosen, the
/// text of canonical instructions is a text of which every line has a meaning, and
/// it means these instructions.
pub proof fn law_written_text_is_read(lines: Seq<Instruction>, noise: Seq<Noise>)
    requires
        forall|k: int| 0 <= k < lines.len() ==> is_canonical(#[trigger] lines[k]),
    ensures
        well_formed_text(serialized(lines, noise)),
        meaning(serialized(lines, noise)) == lines,
{
    let text = serialized(lines, noise);
    lemma_lines_of_written(lines, noise, lines.len() as int);
    let read = lines_of(text);
    assert(read =~= Seq::new(lines.len(), |i: int| written_body(lines, noise, i)));
    assert forall|k: int| 0 <= k < read.len() implies line_meaning(#[trigger] read[k]) == Some(
        lines[k],
    ) by {
        assert(is_canonical(lines[k]));
        lemma_render_parses(lines[k]);
        lemma_indent_blank(noise, k);
        let tail = if noise[k].trailing_space {
            seq![' ']
        } else {
            Seq::<char>::empty()
        };
        lemma_padded_line(indent_at(noise, k), render(lines[k]), tail);
    }
    assert(meaning(text) =~= lines);
}

/// The lines of an ASCII text are ASCII texts.
proof fn lemma_ascii_lines(text: Seq<char>)
    requires
        is_ascii_text(text),
    ensures
        forall|k: int| 0 <= k < scan_lines(text).0.len() ==> is_ascii_text(#[trigger] scan_lines(text).0[k]),
        is_ascii_text(scan_lines(text).1),
    decreases text.len(),
{
    if text.len() > 0 {
        let before = text.drop_last();
        assert(is_ascii_text(before)) by {
            assert forall|i: int| 0 <= i < before.len() implies (#[trigger] before[i])
                <= '\u{7f}' by {
                assert(before[i] == text[i]);
            }
        }
        lemma_ascii_lines(before);
        assert(text.last() == text[text.len() - 1]);
        let (ended, open) = scan_lines(before);
        if text.last() == '\n' {
            assert forall|k: int| 0 <= k < scan_lines(text).0.len() implies is_ascii_text(
                #[trigger] scan_lines(text).0[k],
            ) by {
                if k < ended.len() {
                    assert(scan_lines(text).0[k] == ended[k]);
                }
            }
        } else {
            assert forall|i: int| 0 <= i < open.push(text.last()).len() implies (
            #[trigger] open.push(text.last())[i]) <= '\u{7f}' by {
                if i < open.len() {
                    assert(open[i] <= '\u{7f}');
                }
            }
        }
    }
}

/// Parsing is stable on its own rendering: a program that was parsed from an ASCII
/// text is written as a text that is parsed as the same program again, so that
/// writing it a second time gives the same text.
pub proof fn law_parsing_is_stable(text: Seq<char>)
    requires
        well_formed_text(text),
        is_ascii_text(text),
    ensures
        well_formed_text(rendering(meaning(text))),
        meaning(rendering(meaning(text))) == meaning(text),
        rendering(meaning(rendering(meaning(text)))) == rendering(meaning(text)),
{
    let lines = lines_of(text);
    let parsed = meaning(text);
    lemma_ascii_lines(text);
    assert forall|k: int| 0 <= k < parsed.len() implies is_canonical(#[trigger] parsed[k]) by {
        assert(is_ascii_text(lines[k])) by {
            if k < scan_lines(text).0.len() {
                assert(lines[k] == scan_lines(text).0[k]);
            }
        }
        lemma_normalized_clean(lines[k]);
        assert(line_meaning(lines[k]) is Some);
        lemma_parsed_canonical(normalized(lines[k]));
    }
    law_written_text_is_read(parsed, Seq::new(parsed.len(), |i: int| quiet()));
}

/// The text of an obfuscated program is read as that program: it holds no labels
/// any more, so every line of it has a meaning, whatever white space was chosen.
pub proof fn law_obfuscated_text_is_read(
    lines: Seq<Instruction>,
    script: Seq<Insertion>,
    noise: Seq<Noise>,
)
    ensures
        well_formed_text(serialized(obfuscation(lines, script), noise)),
        meaning(serialized(obfuscation(lines, script), noise)) == obfuscation(lines, script),
        forall|k: int|
            0 <= k < obfuscation(lines, script).len() ==> !((#[trigger] obfuscation(
                lines,
                script,
            )[k]) is PushLabel) && !(obfuscation(lines, script)[k] is LabelDecl),
{
    let plain = obfuscation(lines, script);
    assert forall|k: int| 0 <= k < plain.len() implies !((#[trigger] plain[k]) is PushLabel) && !(
    plain[k] is LabelDecl) && is_canonical(plain[k]) by {}
    law_written_text_is_read(plain, noise);
}

/// Different instructions are written differently: of two canonical instructions
/// with the same text the parser reads the same one, so they are the same.
pub proof fn law_rendering_is_injective(a: Instruction, b: Instruction)
    requires
        is_canonical(a),
        is_canonical(b),
        render(a) == render(b),
    ensures
        a == b,
{
    lemma_render_parses(a);
    lemma_render_parses(b);
}

} // verus!
