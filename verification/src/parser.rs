//! The assembler: from a source text, line by line, to a program.

use vstd::prelude::*;
use vstd::string::StrSliceExecFns;
use crate::instruction::{instructions, Command, Instruction, PushArgument};
use crate::machine::fits;
use crate::program::{lemma_label_table_push, label_table, LabelTable, Program};
use crate::text::{
    chars_of, lemma_skip_bounds, lowercase, lowercase_text, skip_space, skip_space_in, skip_word,
    skip_word_in, string_of, trim, trim_end_in,
};

verus! {

/// Whether a line is a comment: it starts with `#`, with `;` or with `//`.
pub open spec fn is_comment_text(line: Seq<char>) -> bool {
    ||| line.len() >= 1 && (line[0] == '#' || line[0] == ';')
    ||| line.len() >= 2 && line[0] == '/' && line[1] == '/'
}

/// Whether the line that `line` holds is a comment.
fn comment_at_start(line: &Vec<char>) -> (b: bool)
    ensures
        b == is_comment_text(line@),
{
    if line.len() >= 1 && (line[0] == '#' || line[0] == ';') {
        true
    } else {
        line.len() >= 2 && line[0] == '/' && line[1] == '/'
    }
}

/// Whether `line` is a comment.
pub fn is_comment(line: &str) -> (b: bool)
    ensures
        b == is_comment_text(line@),
{
    let chars = chars_of(line);
    comment_at_start(&chars)
}

/// The instruction that a mnemonic without operand stands for.
pub open spec fn opcode(word: Seq<char>) -> Option<Instruction> {
    if word == "left"@ {
        Some(Instruction::Left)
    } else if word == "right"@ {
        Some(Instruction::Right)
    } else if word == "pusht"@ {
        Some(Instruction::PushTapeCell)
    } else if word == "pop"@ {
        Some(Instruction::Pop)
    } else if word == "dup"@ {
        Some(Instruction::Dup)
    } else if word == "del"@ {
        Some(Instruction::Delete)
    } else if word == "eq"@ {
        Some(Instruction::Equal)
    } else if word == "not"@ {
        Some(Instruction::LogicalNot)
    } else if word == "gt"@ {
        Some(Instruction::GreaterThan)
    } else if word == "lt"@ {
        Some(Instruction::LessThan)
    } else if word == "add"@ {
        Some(Instruction::Add)
    } else if word == "sub"@ {
        Some(Instruction::Sub)
    } else if word == "mult"@ {
        Some(Instruction::Mult)
    } else if word == "div"@ {
        Some(Instruction::Div)
    } else if word == "mod"@ {
        Some(Instruction::Mod)
    } else if word == "read"@ {
        Some(Instruction::ReadByte)
    } else if word == "print"@ {
        Some(Instruction::PrintByte)
    } else if word == "jmp"@ {
        Some(Instruction::Jump)
    } else if word == "jmpc"@ {
        Some(Instruction::JumpIfNonzero)
    } else {
        None
    }
}

/// Whether `c` is one of the digits `0` to `9`.
pub open spec fn is_digit(c: char) -> bool {
    '0' <= c <= '9'
}

/// The number that a run of digits writes; 0 for the empty run.
pub open spec fn digits_value(digits: Seq<char>) -> int
    decreases digits.len(),
{
    if digits.len() == 0 {
        0
    } else {
        digits_value(digits.drop_last()) * 10 + (digits.last() as int - '0' as int)
    }
}

/// The digits of an integer literal: the text without the sign that it may start
/// with.
pub open spec fn unsigned_part(text: Seq<char>) -> Seq<char> {
    if text.len() > 0 && (text[0] == '-' || text[0] == '+') {
        text.skip(1)
    } else {
        text
    }
}

/// The 32-bit signed integer that `text` writes: an optional sign `+` or `-` and
/// then one or more digits, nothing else. `None` for any other text, and for a
/// number that is no 32-bit signed integer.
pub open spec fn int_literal(text: Seq<char>) -> Option<i32> {
    let digits = unsigned_part(text);
    let value = if text.len() > 0 && text[0] == '-' {
        -digits_value(digits)
    } else {
        digits_value(digits)
    };
    if digits.len() > 0 && (forall|i: int| 0 <= i < digits.len() ==> is_digit(#[trigger] digits[i]))
        && fits(value) {
        Some(value as i32)
    } else {
        None
    }
}

/// The first position from `from` on that holds a colon; the length of `s` if there
/// is none.
pub open spec fn find_colon(s: Seq<char>, from: int) -> int
    decreases s.len() - from,
{
    if 0 <= from < s.len() && s[from] != ':' {
        find_colon(s, from + 1)
    } else {
        from
    }
}

/// The meaning of one line that is trimmed and in lowercase; `None` for a line that
/// has none.
///
/// The empty line and a comment are no-ops. Otherwise the first word decides: a
/// mnemonic stands for its instruction, and what follows it is ignored; `push` takes
/// the second word as its operand, an integer literal if it is one and else the name
/// of a label; any other word that ends with a colon declares the label named by
/// what stands before its first colon, which must not be empty.
pub open spec fn parse_line(line: Seq<char>) -> Option<Instruction> {
    let a = skip_space(line, 0);
    let b = skip_word(line, a);
    let c = skip_space(line, b);
    let d = skip_word(line, c);
    let word = line.subrange(a, b);
    let operand = line.subrange(c, d);
    if line.len() == 0 || is_comment_text(line) || a == b {
        Some(Instruction::NoOp)
    } else if opcode(word) is Some {
        opcode(word)
    } else if word == "push"@ && c < d {
        Some(
            match int_literal(operand) {
                Some(value) => Instruction::PushConst(value),
                None => Instruction::PushLabel(operand),
            },
        )
    } else if word.last() == ':' && find_colon(word, 0) > 0 {
        Some(Instruction::LabelDecl(word.take(find_colon(word, 0))))
    } else {
        None
    }
}

/// Whether the characters of `chars` from `from` up to `to` are those of `word`.
fn same_text(chars: &Vec<char>, from: usize, to: usize, word: &str) -> (same: bool)
    requires
        from <= to <= chars.len(),
    ensures
        same == (chars@.subrange(from as int, to as int) == word@),
{
    let ghost part = chars@.subrange(from as int, to as int);
    let length = word.unicode_len();
    if to - from != length {
        return false;
    }
    let mut i: usize = 0;
    while i < length
        invariant
            i <= length,
            length == word@.len(),
            to - from == length,
            from <= to <= chars.len(),
            part == chars@.subrange(from as int, to as int),
            forall|j: int| 0 <= j < i ==> part[j] == word@[j],
        decreases length - i,
    {
        if chars[from + i] != word.get_char(i) {
            assert(part[i as int] != word@[i as int]);
            return false;
        }
        i = i + 1;
    }
    assert(part =~= word@);
    true
}

/// The command that a mnemonic without operand stands for.
fn opcode_of(chars: &Vec<char>, from: usize, to: usize) -> (command: Option<Command>)
    requires
        from <= to <= chars.len(),
    ensures
        match opcode(chars@.subrange(from as int, to as int)) {
            Some(instruction) => command matches Some(found) && found@ == instruction,
            None => command is None,
        },
{
    if same_text(chars, from, to, "left") {
        Some(Command::Left)
    } else if same_text(chars, from, to, "right") {
        Some(Command::Right)
    } else if same_text(chars, from, to, "pusht") {
        Some(Command::PushT)
    } else if same_text(chars, from, to, "pop") {
        Some(Command::Pop)
    } else if same_text(chars, from, to, "dup") {
        Some(Command::Dup)
    } else if same_text(chars, from, to, "del") {
        Some(Command::Del)
    } else if same_text(chars, from, to, "eq") {
        Some(Command::Eq)
    } else if same_text(chars, from, to, "not") {
        Some(Command::Not)
    } else if same_text(chars, from, to, "gt") {
        Some(Command::Gt)
    } else if same_text(chars, from, to, "lt") {
        Some(Command::Lt)
    } else if same_text(chars, from, to, "add") {
        Some(Command::Add)
    } else if same_text(chars, from, to, "sub") {
        Some(Command::Sub)
    } else if same_text(chars, from, to, "mult") {
        Some(Command::Mult)
    } else if same_text(chars, from, to, "div") {
        Some(Command::Div)
    } else if same_text(chars, from, to, "mod") {
        Some(Command::Mod)
    } else if same_text(chars, from, to, "read") {
        Some(Command::Read)
    } else if same_text(chars, from, to, "print") {
        Some(Command::Print)
    } else if same_text(chars, from, to, "jmp") {
        Some(Command::Jmp)
    } else if same_text(chars, from, to, "jmpc") {
        Some(Command::JmpC)
    } else {
        None
    }
}

/// A run of digits is worth no less than any of its beginnings.
proof fn lemma_digits_grow(digits: Seq<char>, k: int)
    requires
        0 <= k <= digits.len(),
        forall|i: int| 0 <= i < digits.len() ==> is_digit(#[trigger] digits[i]),
    ensures
        0 <= digits_value(digits.take(k)) <= digits_value(digits),
    decreases digits.len() - k,
{
    if k == digits.len() {
        assert(digits.take(k) =~= digits);
        lemma_digits_nonnegative(digits);
    } else {
        lemma_digits_grow(digits, k + 1);
        assert(digits.take(k + 1).drop_last() =~= digits.take(k));
        assert(is_digit(digits[k]));
        lemma_digits_nonnegative(digits.take(k));
    }
}

/// A run of digits writes no negative number.
proof fn lemma_digits_nonnegative(digits: Seq<char>)
    requires
        forall|i: int| 0 <= i < digits.len() ==> is_digit(#[trigger] digits[i]),
    ensures
        0 <= digits_value(digits),
    decreases digits.len(),
{
    if digits.len() > 0 {
        lemma_digits_nonnegative(digits.drop_last());
        assert(is_digit(digits[digits.len() - 1]));
    }
}

/// The integer that the characters of `chars` from `from` up to `to` write.
fn int_literal_of(chars: &Vec<char>, from: usize, to: usize) -> (value: Option<i32>)
    requires
        from <= to <= chars.len(),
    ensures
        value == int_literal(chars@.subrange(from as int, to as int)),
{
    let ghost text = chars@.subrange(from as int, to as int);
    if from == to {
        return None;
    }
    let negative = chars[from] == '-';
    let start = if negative || chars[from] == '+' {
        from + 1
    } else {
        from
    };
    let ghost digits = chars@.subrange(start as int, to as int);
    assert(digits =~= unsigned_part(text));
    if start == to {
        return None;
    }
    let mut total: i64 = 0;
    let mut i: usize = start;
    while i < to
        invariant
            start <= i <= to <= chars.len(),
            from <= start,
            text == chars@.subrange(from as int, to as int),
            digits == chars@.subrange(start as int, to as int),
            digits == unsigned_part(text),
            forall|j: int| 0 <= j < i - start ==> is_digit(#[trigger] digits[j]),
            total == digits_value(digits.take(i - start)),
            0 <= total <= 0x8000_0000,
        decreases to - i,
    {
        let c = chars[i];
        if !('0' <= c && c <= '9') {
            assert(!is_digit(digits[i - start]));
            return None;
        }
        let digit: i64 = (c as u32 - '0' as u32) as i64;
        assert(digits.take(i - start + 1).drop_last() =~= digits.take(i - start));
        total = total * 10 + digit;
        i = i + 1;
        if total > 0x8000_0000 {
            proof {
                if forall|j: int| 0 <= j < digits.len() ==> is_digit(#[trigger] digits[j]) {
                    lemma_digits_grow(digits, i - start);
                }
            }
            return None;
        }
    }
    assert(digits.take(i - start) =~= digits);
    if negative {
        Some((-total) as i32)
    } else if total <= 0x7fff_ffff {
        Some(total as i32)
    } else {
        None
    }
}

/// In the text that `chars` holds from `base` up to `to`: the first position at or
/// after `from` that holds a colon; `to` if there is none.
fn find_colon_in(chars: &Vec<char>, base: usize, from: usize, to: usize) -> (at: usize)
    requires
        base <= from <= to <= chars.len(),
    ensures
        from <= at <= to,
        at - base == find_colon(chars@.subrange(base as int, to as int), from - base),
{
    let ghost s = chars@.subrange(base as int, to as int);
    let mut at = from;
    while at < to && chars[at] != ':'
        invariant
            base <= from <= at <= to <= chars.len(),
            s == chars@.subrange(base as int, to as int),
            find_colon(s, from - base) == find_colon(s, at - base),
        decreases to - at,
    {
        at = at + 1;
    }
    at
}

/// Whether `command` is what a line means.
pub open spec fn is_meaning(command: Option<Command>, meaning: Option<Instruction>) -> bool {
    match meaning {
        Some(instruction) => command matches Some(found) && found@ == instruction,
        None => command is None,
    }
}

/// The command that the line `line` means, which is trimmed and in lowercase; `None`
/// for a line that means nothing.
pub fn command_of(line: &Vec<char>) -> (command: Option<Command>)
    ensures
        is_meaning(command, parse_line(line@)),
{
    let n = line.len();
    assert(line@.subrange(0, n as int) =~= line@);
    let a = skip_space_in(line, 0, 0, n);
    let b = skip_word_in(line, 0, a, n);
    let c = skip_space_in(line, 0, b, n);
    let d = skip_word_in(line, 0, c, n);
    if n == 0 || comment_at_start(line) || a == b {
        return Some(Command::Null);
    }
    match opcode_of(line, a, b) {
        Some(command) => {
            return Some(command);
        },
        None => {},
    }
    if same_text(line, a, b, "push") && c < d {
        match int_literal_of(line, c, d) {
            Some(value) => Some(Command::Push(PushArgument::Const(value))),
            None => Some(Command::Push(PushArgument::Label(string_of(line, c, d)))),
        }
    } else if line[b - 1] == ':' {
        let colon = find_colon_in(line, a, a, b);
        if colon == a {
            return None;
        }
        let ghost word = line@.subrange(a as int, b as int);
        assert(word.take(colon - a) =~= line@.subrange(a as int, colon as int));
        Some(Command::Label(string_of(line, a, colon)))
    } else {
        None
    }
}

/// The lines that end within `text`, each without its newline, and what follows the
/// last newline.
pub open spec fn scan_lines(text: Seq<char>) -> (Seq<Seq<char>>, Seq<char>)
    decreases text.len(),
{
    if text.len() == 0 {
        (Seq::empty(), Seq::empty())
    } else {
        let (ended, open) = scan_lines(text.drop_last());
        if text.last() == '\n' {
            (ended.push(open), Seq::empty())
        } else {
            (ended, open.push(text.last()))
        }
    }
}

/// The lines of `text`: a line ends at each newline, and what follows the last
/// newline is a line unless it is empty.
pub open spec fn lines_of(text: Seq<char>) -> Seq<Seq<char>> {
    let (ended, open) = scan_lines(text);
    if open.len() > 0 {
        ended.push(open)
    } else {
        ended
    }
}

/// A line as the parser reads it: trimmed, then folded to lowercase.
pub open spec fn normalized(raw: Seq<char>) -> Seq<char> {
    lowercase(trim(raw))
}

/// The meaning of a line of a source text; `None` for a line that has none.
pub open spec fn line_meaning(raw: Seq<char>) -> Option<Instruction> {
    parse_line(normalized(raw))
}

/// Whether the label that `instruction` names, if it names one, has a name.
pub open spec fn is_named(instruction: Instruction) -> bool {
    match instruction {
        Instruction::PushLabel(name) => name.len() > 0,
        Instruction::LabelDecl(name) => name.len() > 0,
        _ => true,
    }
}

/// The labels that a line names are not nameless.
pub proof fn lemma_parsed_named(line: Seq<char>)
    ensures
        parse_line(line) matches Some(instruction) ==> is_named(instruction),
{
    let a = skip_space(line, 0);
    let b = skip_word(line, a);
    let c = skip_space(line, b);
    let d = skip_word(line, c);
    let word = line.subrange(a, b);
    if parse_line(line) matches Some(Instruction::LabelDecl(name)) {
        if opcode(word) is Some {
            assert(!(opcode(word).unwrap() is LabelDecl));
        }
        lemma_skip_bounds(line, 0);
        lemma_skip_bounds(line, a);
        lemma_colon_within(word, 0);
    }
    if parse_line(line) matches Some(Instruction::PushLabel(name)) {
        if opcode(word) is Some {
            assert(!(opcode(word).unwrap() is PushLabel));
        }
        lemma_skip_bounds(line, 0);
        lemma_skip_bounds(line, a);
        lemma_skip_bounds(line, b);
        lemma_skip_bounds(line, c);
    }
}

/// Where [`find_colon`] ends up.
pub proof fn lemma_colon_within(s: Seq<char>, from: int)
    requires
        0 <= from <= s.len(),
    ensures
        from <= find_colon(s, from) <= s.len(),
        forall|i: int| from <= i < find_colon(s, from) ==> (#[trigger] s[i]) != ':',
    decreases s.len() - from,
{
    if from < s.len() && s[from] != ':' {
        lemma_colon_within(s, from + 1);
    }
}

/// Whether every line of `text` has a meaning.
pub open spec fn well_formed_text(text: Seq<char>) -> bool {
    forall|i: int| 0 <= i < lines_of(text).len() ==> line_meaning(#[trigger] lines_of(text)[i]) is Some
}

/// The instructions that the lines of `text` mean, one for each line.
pub open spec fn meaning(text: Seq<char>) -> Seq<Instruction> {
    Seq::new(lines_of(text).len(), |i: int| line_meaning(lines_of(text)[i]).unwrap())
}

/// A line of a source text that has no meaning.
#[derive(Debug, Clone, PartialEq)]
pub struct ParseError {
    /// The position of the line among the lines of the text, from 0.
    pub line: usize,
    /// The line as the parser read it.
    pub text: String,
}

/// The command that the line means which `chars` holds from `from` up to `to`, or
/// else the line as the parser read it.
fn command_of_raw(chars: &Vec<char>, from: usize, to: usize) -> (result: Result<Command, String>)
    requires
        from <= to <= chars.len(),
    ensures
        match line_meaning(chars@.subrange(from as int, to as int)) {
            Some(instruction) => result matches Ok(command) && command@ == instruction,
            None => result matches Err(text) && text@ == normalized(
                chars@.subrange(from as int, to as int),
            ),
        },
{
    let ghost raw = chars@.subrange(from as int, to as int);
    let a = skip_space_in(chars, from, from, to);
    let e = trim_end_in(chars, from, to);
    let trimmed = if a < e {
        assert(chars@.subrange(a as int, e as int) =~= raw.subrange(a - from, e - from));
        string_of(chars, a, e)
    } else {
        assert(chars@.subrange(a as int, a as int) =~= Seq::<char>::empty());
        string_of(chars, a, a)
    };
    assert(trimmed@ == trim(raw));
    let lowered = chars_of(lowercase_text(trimmed.as_str()).as_str());
    assert(lowered@ == normalized(raw));
    match command_of(&lowered) {
        Some(command) => Ok(command),
        None => {
            assert(lowered@.subrange(0, lowered.len() as int) =~= lowered@);
            Err(string_of(&lowered, 0, lowered.len()))
        },
    }
}

/// Unfolds [`instructions`] at the last command.
pub proof fn lemma_instructions_push(lines: Seq<Command>, last: Command)
    ensures
        instructions(lines.push(last)) == instructions(lines).push(last@),
{
    assert(instructions(lines.push(last)) =~= instructions(lines).push(last@));
}

/// The lines that end within the first `k` characters of a text are lines of the
/// whole text, at the same positions, and so is a line that is open after them,
/// wherever the text goes on.
proof fn lemma_scan_prefix(text: Seq<char>, k: int)
    requires
        0 <= k <= text.len(),
    ensures
        scan_lines(text.take(k)).0.len() <= lines_of(text).len(),
        forall|j: int|
            0 <= j < scan_lines(text.take(k)).0.len() ==> (#[trigger] scan_lines(text.take(k)).0[j])
                == lines_of(text)[j],
        scan_lines(text.take(k)).0.len() <= scan_lines(text).0.len(),
        forall|j: int|
            0 <= j < scan_lines(text.take(k)).0.len() ==> (#[trigger] scan_lines(text.take(k)).0[j])
                == scan_lines(text).0[j],
    decreases text.len() - k,
{
    if k == text.len() {
        assert(text.take(k) =~= text);
    } else {
        lemma_scan_prefix(text, k + 1);
        assert(text.take(k + 1).drop_last() =~= text.take(k));
        let shorter = scan_lines(text.take(k)).0;
        let longer = scan_lines(text.take(k + 1)).0;
        assert forall|j: int| 0 <= j < shorter.len() implies (#[trigger] shorter[j]) == lines_of(
            text,
        )[j] && shorter[j] == scan_lines(text).0[j] by {
            assert(shorter[j] == longer[j]);
        }
    }
}

/// Parses a source text, line by line.
///
/// The program holds one command for each line of the text, in order, so that the
/// position of a line is the address of its command, and its table holds the labels
/// that the lines declare; no label is nameless. The first line without a meaning is
/// reported, and then there is no program.
pub fn try_parse_program(prog_string: &str) -> (result: Result<Program, ParseError>)
    ensures
        match result {
            Ok(program) => well_formed_text(prog_string@) && program@.lines == meaning(
                prog_string@,
            ) && program.well_formed() && forall|i: int|
                0 <= i < program@.lines.len() ==> is_named(#[trigger] program@.lines[i]),
            Err(error) => error.line < lines_of(prog_string@).len() && line_meaning(
                lines_of(prog_string@)[error.line as int],
            ) is None && error.text@ == normalized(lines_of(prog_string@)[error.line as int])
                && forall|i: int|
                0 <= i < error.line ==> line_meaning(#[trigger] lines_of(prog_string@)[i]) is Some,
        },
{
    let chars = chars_of(prog_string);
    let mut lines: Vec<Command> = Vec::new();
    let mut labels = LabelTable::new();
    let mut start: usize = 0;
    let mut i: usize = 0;
    let ghost mut ended: Seq<Seq<char>> = Seq::empty();
    assert(chars@.take(0) =~= Seq::<char>::empty());
    assert(chars@.subrange(0, 0) =~= Seq::<char>::empty());
    while i < chars.len()
        invariant
            start <= i <= chars.len(),
            chars@ == prog_string@,
            scan_lines(chars@.take(i as int)) == (ended, chars@.subrange(start as int, i as int)),
            lines.len() == ended.len(),
            forall|k: int|
                0 <= k < ended.len() ==> line_meaning(#[trigger] ended[k]) == Some(lines[k]@),
            labels@ == label_table(instructions(lines@)),
            forall|k: int| 0 <= k < ended.len() ==> (#[trigger] ended[k]) == lines_of(chars@)[k],
            ended.len() <= lines_of(chars@).len(),
        decreases chars.len() - i,
    {
        let ghost open = chars@.subrange(start as int, i as int);
        proof {
            assert(chars@.take(i + 1).drop_last() =~= chars@.take(i as int));
            lemma_scan_prefix(chars@, i as int);
        }
        if chars[i] == '\n' {
            match command_of_raw(&chars, start, i) {
                Ok(command) => {
                    proof {
                        lemma_label_table_push(instructions(lines@), command@);
                        lemma_instructions_push(lines@, command);
                        lemma_scan_prefix(chars@, i + 1);
                    }
                    match &command {
                        Command::Label(name) => {
                            labels.insert(name.clone(), lines.len());
                        },
                        _ => {},
                    }
                    lines.push(command);
                    proof {
                        ended = ended.push(open);
                    }
                    start = i + 1;
                    assert(chars@.subrange(start as int, start as int) =~= Seq::<char>::empty());
                },
                Err(text) => {
                    proof {
                        lemma_scan_prefix(chars@, i + 1);
                        let closed = scan_lines(chars@.take(i + 1)).0;
                        assert(closed == ended.push(open));
                        assert(closed[ended.len() as int] == lines_of(chars@)[ended.len() as int]);
                        assert(lines_of(chars@)[ended.len() as int] == open);
                        assert(line_meaning(open) is None);
                        assert(text@ == normalized(open));
                        assert forall|k: int| 0 <= k < ended.len() implies line_meaning(
                            #[trigger] lines_of(chars@)[k],
                        ) is Some by {
                            assert(ended[k] == lines_of(chars@)[k]);
                        }
                    }
                    return Err(ParseError { line: lines.len(), text });
                },
            }
        } else {
            assert(chars@.subrange(start as int, i + 1) =~= open.push(chars[i as int]));
        }
        i = i + 1;
    }
    assert(chars@.take(i as int) =~= chars@);
    if start < chars.len() {
        match command_of_raw(&chars, start, chars.len()) {
            Ok(command) => {
                proof {
                    lemma_label_table_push(instructions(lines@), command@);
                    lemma_instructions_push(lines@, command);
                }
                match &command {
                    Command::Label(name) => {
                        labels.insert(name.clone(), lines.len());
                    },
                    _ => {},
                }
                lines.push(command);
            },
            Err(text) => {
                return Err(ParseError { line: lines.len(), text });
            },
        }
    }
    assert(instructions(lines@).len() == lines.len());
    let program = Program { lines, labels };
    assert(program@.lines =~= meaning(prog_string@));
    assert forall|i: int| 0 <= i < program@.lines.len() implies is_named(
        #[trigger] program@.lines[i],
    ) by {
        lemma_parsed_named(normalized(lines_of(prog_string@)[i]));
    }
    Ok(program)
}

/// Parses a source text of which every line has a meaning.
///
/// The program holds one command for each line of the text, in order, so that the
/// position of a line is the address of its command, and its table holds the labels
/// that the lines declare; no label is nameless.
pub fn parse_program(prog_string: &str) -> (program: Program)
    requires
        well_formed_text(prog_string@),
    ensures
        program@.lines == meaning(prog_string@),
        program.well_formed(),
        forall|i: int| 0 <= i < program@.lines.len() ==> is_named(#[trigger] program@.lines[i]),
{
    match try_parse_program(prog_string) {
        Ok(program) => program,
        Err(_) => Program::from_lines(Vec::new()),
    }
}

} // verus!
