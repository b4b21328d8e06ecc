//! The commands of the machine, their mathematical model, and the text that each is
//! written as.

use vstd::prelude::*;
use vstd::string::StringExecFns;

verus! {

/// Mathematical model of one instruction: what a [`Command`] means.
///
/// Names are sequences of characters; a constant is the integer it pushes.
pub enum Instruction {
    Left,
    Right,
    PushTapeCell,
    PushConst(i32),
    PushLabel(Seq<char>),
    Pop,
    Dup,
    Delete,
    Equal,
    LogicalNot,
    GreaterThan,
    LessThan,
    Add,
    Sub,
    Mult,
    Div,
    Mod,
    ReadByte,
    PrintByte,
    Jump,
    JumpIfNonzero,
    LabelDecl(Seq<char>),
    NoOp,
}

/// The operand of a `push`: a literal integer or the name of a label.
#[derive(Clone, Debug, PartialEq)]
pub enum PushArgument {
    Const(i32),
    Label(String),
}

/// One line of a program.
#[derive(Clone, Debug, PartialEq)]
pub enum Command {
    Left,
    Right,
    PushT,
    Push(PushArgument),
    Pop,
    Dup,
    Del,
    Eq,
    Not,
    Gt,
    Lt,
    Add,
    Sub,
    Mult,
    Div,
    Mod,
    Read,
    Print,
    Jmp,
    JmpC,
    Label(String),
    /// An empty line or a comment.
    Null,
}

impl View for Command {
    type V = Instruction;

    open spec fn view(&self) -> Instruction {
        match *self {
            Command::Left => Instruction::Left,
            Command::Right => Instruction::Right,
            Command::PushT => Instruction::PushTapeCell,
            Command::Push(PushArgument::Const(c)) => Instruction::PushConst(c),
            Command::Push(PushArgument::Label(name)) => Instruction::PushLabel(name@),
            Command::Pop => Instruction::Pop,
            Command::Dup => Instruction::Dup,
            Command::Del => Instruction::Delete,
            Command::Eq => Instruction::Equal,
            Command::Not => Instruction::LogicalNot,
            Command::Gt => Instruction::GreaterThan,
            Command::Lt => Instruction::LessThan,
            Command::Add => Instruction::Add,
            Command::Sub => Instruction::Sub,
            Command::Mult => Instruction::Mult,
            Command::Div => Instruction::Div,
            Command::Mod => Instruction::Mod,
            Command::Read => Instruction::ReadByte,
            Command::Print => Instruction::PrintByte,
            Command::Jmp => Instruction::Jump,
            Command::JmpC => Instruction::JumpIfNonzero,
            Command::Label(name) => Instruction::LabelDecl(name@),
            Command::Null => Instruction::NoOp,
        }
    }
}

/// The models of a sequence of commands, position by position.
pub open spec fn instructions(lines: Seq<Command>) -> Seq<Instruction> {
    Seq::new(lines.len(), |i: int| lines[i]@)
}

/// The character that writes the decimal digit `d`.
pub open spec fn digit_char(d: int) -> char {
    if d == 0 {
        '0'
    } else if d == 1 {
        '1'
    } else if d == 2 {
        '2'
    } else if d == 3 {
        '3'
    } else if d == 4 {
        '4'
    } else if d == 5 {
        '5'
    } else if d == 6 {
        '6'
    } else if d == 7 {
        '7'
    } else if d == 8 {
        '8'
    } else {
        '9'
    }
}

/// The decimal digits of `n`, most significant first, without leading zeros.
pub open spec fn decimal_digits(n: nat) -> Seq<char>
    decreases n,
{
    if n < 10 {
        seq![digit_char(n as int)]
    } else {
        decimal_digits(n / 10).push(digit_char((n % 10) as int))
    }
}

/// The decimal notation of `value`: a minus sign for a negative number, then its digits.
pub open spec fn decimal(value: int) -> Seq<char> {
    if value < 0 {
        seq!['-'] + decimal_digits((-value) as nat)
    } else {
        decimal_digits(value as nat)
    }
}

/// The canonical text of an instruction: its lowercase mnemonic, followed for `push`
/// by a space and the operand, and a name followed by a colon for a label declaration.
/// A no-op is the empty line.
pub open spec fn render(instruction: Instruction) -> Seq<char> {
    match instruction {
        Instruction::Left => "left"@,
        Instruction::Right => "right"@,
        Instruction::PushTapeCell => "pusht"@,
        Instruction::PushConst(c) => "push "@ + decimal(c as int),
        Instruction::PushLabel(name) => "push "@ + name,
        Instruction::Pop => "pop"@,
        Instruction::Dup => "dup"@,
        Instruction::Delete => "del"@,
        Instruction::Equal => "eq"@,
        Instruction::LogicalNot => "not"@,
        Instruction::GreaterThan => "gt"@,
        Instruction::LessThan => "lt"@,
        Instruction::Add => "add"@,
        Instruction::Sub => "sub"@,
        Instruction::Mult => "mult"@,
        Instruction::Div => "div"@,
        Instruction::Mod => "mod"@,
        Instruction::ReadByte => "read"@,
        Instruction::PrintByte => "print"@,
        Instruction::Jump => "jmp"@,
        Instruction::JumpIfNonzero => "jmpc"@,
        Instruction::LabelDecl(name) => name + ":"@,
        Instruction::NoOp => ""@,
    }
}

/// The text of the decimal digit `d`.
fn digit_text(d: u64) -> (s: &'static str)
    requires
        d < 10,
    ensures
        s@ == seq![digit_char(d as int)],
{
    proof {
        reveal_strlit("0");
        reveal_strlit("1");
        reveal_strlit("2");
        reveal_strlit("3");
        reveal_strlit("4");
        reveal_strlit("5");
        reveal_strlit("6");
        reveal_strlit("7");
        reveal_strlit("8");
        reveal_strlit("9");
    }
    let s = if d == 0 {
        "0"
    } else if d == 1 {
        "1"
    } else if d == 2 {
        "2"
    } else if d == 3 {
        "3"
    } else if d == 4 {
        "4"
    } else if d == 5 {
        "5"
    } else if d == 6 {
        "6"
    } else if d == 7 {
        "7"
    } else if d == 8 {
        "8"
    } else {
        "9"
    };
    assert(s@ =~= seq![digit_char(d as int)]);
    s
}

/// The decimal digits of `n`.
fn digits_text(n: u64) -> (s: String)
    ensures
        s@ == decimal_digits(n as nat),
    decreases n,
{
    if n < 10 {
        String::from_str(digit_text(n))
    } else {
        let head = digits_text(n / 10);
        let s = head.concat(digit_text(n % 10));
        assert(s@ =~= decimal_digits(n as nat));
        s
    }
}

/// Writes `value` in decimal notation.
pub fn decimal_text(value: i32) -> (s: String)
    ensures
        s@ == decimal(value as int),
{
    if value < 0 {
        let magnitude: u64 = (-(value as i64)) as u64;
        let s = String::from_str("-").concat(digits_text(magnitude).as_str());
        proof {
            reveal_strlit("-");
            assert(s@ =~= decimal(value as int));
        }
        s
    } else {
        digits_text(value as u64)
    }
}

impl Command {
    /// The canonical text of this command.
    pub fn to_string(&self) -> (s: String)
        ensures
            s@ == render(self@),
    {
        match self {
            Command::Left => String::from_str("left"),
            Command::Right => String::from_str("right"),
            Command::PushT => String::from_str("pusht"),
            Command::Push(PushArgument::Const(c)) => String::from_str("push ").concat(
                decimal_text(*c).as_str(),
            ),
            Command::Push(PushArgument::Label(name)) => String::from_str("push ").concat(
                name.as_str(),
            ),
            Command::Pop => String::from_str("pop"),
            Command::Dup => String::from_str("dup"),
            Command::Del => String::from_str("del"),
            Command::Eq => String::from_str("eq"),
            Command::Not => String::from_str("not"),
            Command::Gt => String::from_str("gt"),
            Command::Lt => String::from_str("lt"),
            Command::Add => String::from_str("add"),
            Command::Sub => String::from_str("sub"),
            Command::Mult => String::from_str("mult"),
            Command::Div => String::from_str("div"),
            Command::Mod => String::from_str("mod"),
            Command::Read => String::from_str("read"),
            Command::Print => String::from_str("print"),
            Command::Jmp => String::from_str("jmp"),
            Command::JmpC => String::from_str("jmpc"),
            Command::Label(name) => name.clone().concat(":"),
            Command::Null => String::from_str(""),
        }
    }

    /// A copy of this command.
    pub fn duplicate(&self) -> (copy: Command)
        ensures
            copy == *self,
    {
        match self {
            Command::Left => Command::Left,
            Command::Right => Command::Right,
            Command::PushT => Command::PushT,
            Command::Push(PushArgument::Const(c)) => Command::Push(PushArgument::Const(*c)),
            Command::Push(PushArgument::Label(name)) => Command::Push(
                PushArgument::Label(name.clone()),
            ),
            Command::Pop => Command::Pop,
            Command::Dup => Command::Dup,
            Command::Del => Command::Del,
            Command::Eq => Command::Eq,
            Command::Not => Command::Not,
            Command::Gt => Command::Gt,
            Command::Lt => Command::Lt,
            Command::Add => Command::Add,
            Command::Sub => Command::Sub,
            Command::Mult => Command::Mult,
            Command::Div => Command::Div,
            Command::Mod => Command::Mod,
            Command::Read => Command::Read,
            Command::Print => Command::Print,
            Command::Jmp => Command::Jmp,
            Command::JmpC => Command::JmpC,
            Command::Label(name) => Command::Label(name.clone()),
            Command::Null => Command::Null,
        }
    }

    /// Whether this command is the empty line.
    pub fn is_null(&self) -> (b: bool)
        ensures
            b == (self@ == Instruction::NoOp),
    {
        match self {
            Command::Null => true,
            _ => false,
        }
    }
}

} // verus!
