//! The obfuscator: dead code, where it goes in, how labels are resolved, and how the
//! result is written with white space drawn at random.

use rand::rngs::StdRng;
use vstd::prelude::*;
use vstd::string::StringExecFns;
use crate::instruction::{instructions, render, Command, Instruction, PushArgument};
use crate::machine::{position_value, position_value_of};
use crate::parser::well_formed_text;
use crate::program::{index_labels, label_table, Program};
use crate::random::{random_chance, random_constant, random_index};
use crate::roundtrip::law_obfuscated_text_is_read;
use crate::text::string_of;

verus! {

/// The patterns of instructions that do nothing: each leaves the stack and the tape
/// as it found them, whatever they hold.
#[derive(Debug, Clone, Copy, PartialEq, Eq, Structural)]
pub enum DeadCode {
    /// An empty line.
    Blank,
    /// A constant is pushed and deleted.
    PushDelete,
    /// Two constants are pushed and added, the sum is deleted.
    Sum,
    /// Two constants are pushed and subtracted, the difference is deleted.
    Difference,
    /// A constant is pushed, doubled and deleted.
    Double,
    /// A constant is divided by a second and multiplied by a third, the result is
    /// deleted.
    Ratio,
    /// A constant is squared and multiplied by a second, the result is deleted.
    Square,
}

/// The constants that dead code adds and subtracts.
pub open spec fn is_small(instruction: Instruction) -> bool {
    instruction matches Instruction::PushConst(c) && -3 <= c < 10
}

/// The constants that dead code divides and multiplies by.
pub open spec fn is_factor(instruction: Instruction) -> bool {
    instruction matches Instruction::PushConst(c) && 3 <= c < 10
}

/// Whether `block` is dead code of the pattern `kind`.
pub open spec fn is_dead_code(kind: DeadCode, block: Seq<Instruction>) -> bool {
    match kind {
        DeadCode::Blank => block.len() == 1 && block[0] == Instruction::NoOp,
        DeadCode::PushDelete => block.len() == 2 && is_small(block[0]) && block[1]
            == Instruction::Delete,
        DeadCode::Sum => block.len() == 4 && is_small(block[0]) && is_small(block[1]) && block[2]
            == Instruction::Add && block[3] == Instruction::Delete,
        DeadCode::Difference => block.len() == 4 && is_small(block[0]) && is_small(block[1])
            && block[2] == Instruction::Sub && block[3] == Instruction::Delete,
        DeadCode::Double => block.len() == 4 && is_small(block[0]) && block[1] == Instruction::Dup
            && block[2] == Instruction::Add && block[3] == Instruction::Delete,
        DeadCode::Ratio => block.len() == 6 && is_factor(block[0]) && is_factor(block[1])
            && block[2] == Instruction::Div && is_factor(block[3]) && block[4]
            == Instruction::Mult && block[5] == Instruction::Delete,
        DeadCode::Square => block.len() == 6 && is_small(block[0]) && block[1] == Instruction::Dup
            && block[2] == Instruction::Mult && is_factor(block[3]) && block[4]
            == Instruction::Mult && block[5] == Instruction::Delete,
    }
}

/// `lines` with `block` put in before position `index`.
pub open spec fn splice(lines: Seq<Instruction>, index: int, block: Seq<Instruction>) -> Seq<
    Instruction,
> {
    lines.take(index) + block + lines.skip(index)
}

/// One piece of dead code and the position that it is put in at.
pub struct Insertion {
    pub kind: DeadCode,
    pub index: int,
    pub block: Seq<Instruction>,
}

/// `lines` after the insertions of `script`, made one after the other.
pub open spec fn apply(lines: Seq<Instruction>, script: Seq<Insertion>) -> Seq<Instruction>
    decreases script.len(),
{
    if script.len() == 0 {
        lines
    } else {
        splice(apply(lines, script.drop_last()), script.last().index, script.last().block)
    }
}

/// Whether each insertion of `script` puts in dead code of its pattern, at a position
/// that holds an instruction at that time.
pub open spec fn admissible(lines: Seq<Instruction>, script: Seq<Insertion>) -> bool
    decreases script.len(),
{
    script.len() == 0 || {
        &&& admissible(lines, script.drop_last())
        &&& 0 <= script.last().index < apply(lines, script.drop_last()).len()
        &&& is_dead_code(script.last().kind, script.last().block)
    }
}

/// Whether every insertion of `script` is of the pattern `kind`.
pub open spec fn all_of(kind: DeadCode, script: Seq<Insertion>) -> bool {
    forall|i: int| 0 <= i < script.len() ==> (#[trigger] script[i]).kind == kind
}

/// `push` of a constant that dead code adds or subtracts, drawn from `rng`.
fn small_constant(rng: &mut StdRng) -> (command: Command)
    ensures
        is_small(command@),
{
    Command::Push(PushArgument::Const(random_constant(rng, -3, 10)))
}

/// `push` of a constant that dead code divides or multiplies by, drawn from `rng`.
fn factor_constant(rng: &mut StdRng) -> (command: Command)
    ensures
        is_factor(command@),
{
    Command::Push(PushArgument::Const(random_constant(rng, 3, 10)))
}

/// A piece of dead code of the pattern `kind`, with constants drawn from `rng`.
pub fn dead_code(kind: DeadCode, rng: &mut StdRng) -> (block: Vec<Command>)
    ensures
        is_dead_code(kind, instructions(block@)),
{
    let mut block: Vec<Command> = Vec::new();
    match kind {
        DeadCode::Blank => {
            block.push(Command::Null);
        },
        DeadCode::PushDelete => {
            block.push(small_constant(rng));
            block.push(Command::Del);
        },
        DeadCode::Sum => {
            block.push(small_constant(rng));
            block.push(small_constant(rng));
            block.push(Command::Add);
            block.push(Command::Del);
        },
        DeadCode::Difference => {
            block.push(small_constant(rng));
            block.push(small_constant(rng));
            block.push(Command::Sub);
            block.push(Command::Del);
        },
        DeadCode::Double => {
            block.push(small_constant(rng));
            block.push(Command::Dup);
            block.push(Command::Add);
            block.push(Command::Del);
        },
        DeadCode::Ratio => {
            block.push(factor_constant(rng));
            block.push(factor_constant(rng));
            block.push(Command::Div);
            block.push(factor_constant(rng));
            block.push(Command::Mult);
            block.push(Command::Del);
        },
        DeadCode::Square => {
            block.push(small_constant(rng));
            block.push(Command::Dup);
            block.push(Command::Mult);
            block.push(factor_constant(rng));
            block.push(Command::Mult);
            block.push(Command::Del);
        },
    }
    block
}

/// Puts the commands of `block` into `lines` before position `index`.
pub fn insert_block(lines: &mut Vec<Command>, index: usize, block: &Vec<Command>)
    requires
        index <= old(lines).len(),
    ensures
        instructions(final(lines)@) == splice(
            instructions(old(lines)@),
            index as int,
            instructions(block@),
        ),
        final(lines).len() == old(lines).len() + block.len(),
{
    let ghost before = lines@;
    let mut k: usize = 0;
    while k < block.len()
        invariant
            k <= block.len(),
            index <= before.len(),
            lines.len() == before.len() + k,
            lines@ == before.take(index as int) + block@.take(k as int) + before.skip(index as int),
        decreases block.len() - k,
    {
        lines.insert(index + k, block[k].duplicate());
        k = k + 1;
        assert(lines@ =~= before.take(index as int) + block@.take(k as int) + before.skip(
            index as int,
        ));
    }
    assert(block@.take(k as int) =~= block@);
    assert(instructions(lines@) =~= splice(
        instructions(before),
        index as int,
        instructions(block@),
    ));
}

/// Unfolds [`apply`] and [`admissible`] at the last insertion.
pub proof fn lemma_script_push(lines: Seq<Instruction>, script: Seq<Insertion>, last: Insertion)
    ensures
        apply(lines, script.push(last)) == splice(apply(lines, script), last.index, last.block),
        admissible(lines, script.push(last)) <==> admissible(lines, script) && 0 <= last.index
            < apply(lines, script).len() && is_dead_code(last.kind, last.block),
{
    assert(script.push(last).drop_last() =~= script);
}

/// Puts `quantity` pieces of dead code of the pattern `kind` into `program`, each at
/// a position drawn from `rng` among those that hold a command at that time.
///
/// With a `quantity` of 0 nothing is drawn and the commands stay as they are.
/// Otherwise the program must hold a command, as there is no position to draw else.
pub fn insert_dead_code(
    program: Program,
    kind: DeadCode,
    quantity: usize,
    rng: &mut StdRng,
) -> (padded: Program)
    requires
        quantity > 0 ==> program.lines.len() > 0,
    ensures
        padded.well_formed(),
        exists|script: Seq<Insertion>|
            {
                &&& #[trigger] apply(program@.lines, script) == padded@.lines
                &&& script.len() == quantity
                &&& admissible(program@.lines, script)
                &&& all_of(kind, script)
            },
        quantity == 0 ==> padded@.lines == program@.lines,
        quantity == 0 && program.well_formed() ==> padded@ == program@,
{
    let mut lines = program.lines;
    let ghost source = instructions(lines@);
    let ghost mut script: Seq<Insertion> = Seq::empty();
    let mut round: usize = 0;
    while round < quantity
        invariant
            round <= quantity,
            quantity > 0 ==> lines.len() > 0,
            script.len() == round,
            instructions(lines@) == apply(source, script),
            admissible(source, script),
            all_of(kind, script),
        decreases quantity - round,
    {
        let index = random_index(rng, lines.len());
        let block = dead_code(kind, rng);
        proof {
            let last = Insertion { kind, index: index as int, block: instructions(block@) };
            lemma_script_push(source, script, last);
            script = script.push(last);
        }
        insert_block(&mut lines, index, &block);
        round = round + 1;
    }
    let padded = Program::from_lines(lines);
    assert(apply(program@.lines, script) == padded@.lines);
    padded
}

/// `lines` without the no-ops, the other instructions in their order.
pub open spec fn stripped(lines: Seq<Instruction>) -> Seq<Instruction>
    decreases lines.len(),
{
    if lines.len() == 0 {
        lines
    } else if lines.last() == Instruction::NoOp {
        stripped(lines.drop_last())
    } else {
        stripped(lines.drop_last()).push(lines.last())
    }
}

/// The commands of `lines` that are not empty lines, in their order.
pub fn strip_blanks(lines: &Vec<Command>) -> (kept: Vec<Command>)
    ensures
        instructions(kept@) == stripped(instructions(lines@)),
{
    let mut kept: Vec<Command> = Vec::new();
    let mut i: usize = 0;
    assert(instructions(lines@.take(0)) =~= Seq::<Instruction>::empty());
    while i < lines.len()
        invariant
            i <= lines.len(),
            instructions(kept@) == stripped(instructions(lines@.take(i as int))),
        decreases lines.len() - i,
    {
        proof {
            let upto = instructions(lines@.take(i + 1));
            assert(upto.drop_last() =~= instructions(lines@.take(i as int)));
            assert(upto.last() == lines[i as int]@);
        }
        if !lines[i].is_null() {
            let ghost before = kept@;
            kept.push(lines[i].duplicate());
            assert(instructions(kept@) =~= instructions(before).push(lines[i as int]@));
        }
        i = i + 1;
    }
    assert(lines@.take(i as int) =~= lines@);
    kept
}

/// How many times empty lines are scattered before the dead code goes in.
pub const BLANK_ROUNDS: usize = 100;

/// How many pieces go in of each pattern of four instructions or fewer.
pub const SHORT_PIECES: usize = 200;

/// How many pieces go in of each pattern of six instructions.
pub const LONG_PIECES: usize = 20;

/// How many empty lines go in after the dead code.
pub const LAST_BLANKS: usize = 100;

/// Scatters empty lines over `lines`: [`BLANK_ROUNDS`] times one to three of them,
/// each at a position drawn from `rng`.
fn scatter_blanks(lines: &mut Vec<Command>, rng: &mut StdRng)
    requires
        old(lines).len() > 0,
    ensures
        final(lines).len() > 0,
        exists|script: Seq<Insertion>|
            {
                &&& #[trigger] apply(instructions(old(lines)@), script) == instructions(
                    final(lines)@,
                )
                &&& BLANK_ROUNDS <= script.len() <= 3 * BLANK_ROUNDS
                &&& admissible(instructions(old(lines)@), script)
                &&& all_of(DeadCode::Blank, script)
            },
{
    let ghost source = instructions(lines@);
    let ghost mut script: Seq<Insertion> = Seq::empty();
    let mut round: usize = 0;
    while round < BLANK_ROUNDS
        invariant
            round <= BLANK_ROUNDS,
            lines.len() > 0,
            round <= script.len() <= 3 * round,
            instructions(lines@) == apply(source, script),
            admissible(source, script),
            all_of(DeadCode::Blank, script),
        decreases BLANK_ROUNDS - round,
    {
        let count = random_constant(rng, 1, 4);
        let mut made: i32 = 0;
        while made < count
            invariant
                0 <= made <= count <= 3,
                lines.len() > 0,
                script.len() <= 3 * BLANK_ROUNDS,
                round + made <= script.len() <= 3 * round + made,
                round < BLANK_ROUNDS,
                instructions(lines@) == apply(source, script),
                admissible(source, script),
                all_of(DeadCode::Blank, script),
            decreases count - made,
        {
            let index = random_index(rng, lines.len());
            let ghost before = lines@;
            proof {
                let last = Insertion {
                    kind: DeadCode::Blank,
                    index: index as int,
                    block: seq![Instruction::NoOp],
                };
                lemma_script_push(source, script, last);
                script = script.push(last);
            }
            lines.insert(index, Command::Null);
            assert(instructions(lines@) =~= splice(
                instructions(before),
                index as int,
                seq![Instruction::NoOp],
            ));
            made = made + 1;
        }
        round = round + 1;
    }
}

/// `lines` with each reference to a label replaced by the constant that stands for
/// the position of its declaration, and each declaration by a no-op.
pub open spec fn resolved(lines: Seq<Instruction>) -> Seq<Instruction> {
    Seq::new(
        lines.len(),
        |i: int|
            match lines[i] {
                Instruction::PushLabel(name) => Instruction::PushConst(
                    position_value(label_table(lines)[name]),
                ),
                Instruction::LabelDecl(_) => Instruction::NoOp,
                other => other,
            },
    )
}

/// Whether every label that `lines` refer to is declared in them.
pub open spec fn references_declared(lines: Seq<Instruction>) -> bool {
    forall|i: int|
        0 <= i < lines.len() ==> ((#[trigger] lines[i]) matches Instruction::PushLabel(name)
            ==> label_table(lines).contains_key(name))
}

/// Replaces each reference to a label by the constant that stands for the position
/// of its declaration, and each declaration by an empty line.
pub fn resolve_labels(program: Program) -> (plain: Program)
    requires
        program.well_formed(),
        references_declared(program@.lines),
    ensures
        plain@.lines == resolved(program@.lines),
        plain.well_formed(),
{
    let lines = program.lines;
    let labels = program.labels;
    let mut plain: Vec<Command> = Vec::new();
    let mut i: usize = 0;
    while i < lines.len()
        invariant
            i <= lines.len(),
            labels@ == label_table(instructions(lines@)),
            references_declared(instructions(lines@)),
            instructions(plain@) == resolved(instructions(lines@)).take(i as int),
        decreases lines.len() - i,
    {
        let ghost before = plain@;
        assert(instructions(lines@)[i as int] == lines[i as int]@);
        let command = match &lines[i] {
            Command::Push(PushArgument::Label(name)) => {
                match labels.get(name) {
                    Some(position) => Command::Push(
                        PushArgument::Const(position_value_of(position)),
                    ),
                    None => Command::Null,
                }
            },
            Command::Label(_) => Command::Null,
            other => other.duplicate(),
        };
        assert(command@ == resolved(instructions(lines@))[i as int]);
        plain.push(command);
        assert(instructions(plain@) =~= instructions(before).push(command@));
        i = i + 1;
        assert(instructions(plain@) =~= resolved(instructions(lines@)).take(i as int));
    }
    assert(resolved(instructions(lines@)).take(i as int) =~= resolved(instructions(lines@)));
    Program::from_lines(plain)
}

/// A script made of two is applied by applying one after the other.
pub proof fn lemma_apply_concat(lines: Seq<Instruction>, first: Seq<Insertion>, second: Seq<Insertion>)
    ensures
        apply(lines, first + second) == apply(apply(lines, first), second),
        admissible(lines, first + second) <==> admissible(lines, first) && admissible(
            apply(lines, first),
            second,
        ),
    decreases second.len(),
{
    if second.len() == 0 {
        assert(first + second =~= first);
    } else {
        lemma_apply_concat(lines, first, second.drop_last());
        assert((first + second).drop_last() =~= first + second.drop_last());
    }
}

/// Whether `instruction` refers to a label or declares one.
pub open spec fn names_label(instruction: Instruction) -> bool {
    instruction is PushLabel || instruction is LabelDecl
}

/// Whether `a` and `b` hold the same references to labels and the same declarations.
pub open spec fn same_names(a: Seq<Instruction>, b: Seq<Instruction>) -> bool {
    forall|instruction: Instruction| #[trigger]
        names_label(instruction) ==> (a.contains(instruction) <==> b.contains(instruction))
}

/// The table holds a name exactly if the lines declare it.
pub proof fn lemma_table_domain(lines: Seq<Instruction>, name: Seq<char>)
    ensures
        label_table(lines).contains_key(name) <==> lines.contains(Instruction::LabelDecl(name)),
    decreases lines.len(),
{
    let declaration = Instruction::LabelDecl(name);
    if lines.len() > 0 {
        let before = lines.drop_last();
        lemma_table_domain(before, name);
        if before.contains(declaration) {
            let i = choose|i: int| 0 <= i < before.len() && before[i] == declaration;
            assert(lines[i] == declaration);
        }
        if lines.last() == declaration {
            assert(lines[lines.len() - 1] == declaration);
        }
        if lines.contains(declaration) {
            let i = choose|i: int| 0 <= i < lines.len() && lines[i] == declaration;
            if i < lines.len() - 1 {
                assert(before[i] == declaration);
            }
        }
    }
}

/// Lines that hold the same names as lines whose references are declared have
/// their references declared too.
pub proof fn lemma_references_carry(a: Seq<Instruction>, b: Seq<Instruction>)
    requires
        same_names(a, b),
        references_declared(a),
    ensures
        references_declared(b),
{
    assert forall|i: int| 0 <= i < b.len() && (#[trigger] b[i]) is PushLabel implies label_table(
        b,
    ).contains_key(b[i]->PushLabel_0) by {
        let name = b[i]->PushLabel_0;
        let reference = Instruction::PushLabel(name);
        let declaration = Instruction::LabelDecl(name);
        assert(names_label(reference));
        assert(names_label(declaration));
        assert(b.contains(reference));
        let j = choose|j: int| 0 <= j < a.len() && a[j] == reference;
        assert(a[j] is PushLabel);
        lemma_table_domain(a, name);
        lemma_table_domain(b, name);
    }
}

/// Taking the no-ops out leaves the names.
pub proof fn lemma_stripped_names(lines: Seq<Instruction>)
    ensures
        same_names(lines, stripped(lines)),
    decreases lines.len(),
{
    if lines.len() > 0 {
        let before = lines.drop_last();
        lemma_stripped_names(before);
        assert forall|instruction: Instruction| #[trigger]
            names_label(instruction) implies (lines.contains(instruction) <==> stripped(
            lines,
        ).contains(instruction)) by {
            let kept = stripped(lines);
            if lines.contains(instruction) {
                let i = choose|i: int| 0 <= i < lines.len() && lines[i] == instruction;
                if i < lines.len() - 1 {
                    assert(before[i] == instruction);
                    let j = choose|j: int|
                        0 <= j < stripped(before).len() && stripped(before)[j] == instruction;
                    assert(kept[j] == instruction);
                } else {
                    assert(kept[kept.len() - 1] == instruction);
                }
            }
            if kept.contains(instruction) {
                let j = choose|j: int| 0 <= j < kept.len() && kept[j] == instruction;
                if j < stripped(before).len() {
                    assert(stripped(before)[j] == instruction);
                    let i = choose|i: int| 0 <= i < before.len() && before[i] == instruction;
                    assert(lines[i] == instruction);
                } else {
                    assert(lines[lines.len() - 1] == instruction);
                }
            }
        }
    }
}

/// Dead code holds no names, so putting it in leaves the names.
pub proof fn lemma_apply_names(lines: Seq<Instruction>, script: Seq<Insertion>)
    requires
        admissible(lines, script),
    ensures
        same_names(lines, apply(lines, script)),
    decreases script.len(),
{
    if script.len() > 0 {
        let before = apply(lines, script.drop_last());
        let last = script.last();
        let after = apply(lines, script);
        lemma_apply_names(lines, script.drop_last());
        assert forall|instruction: Instruction| #[trigger]
            names_label(instruction) implies (before.contains(instruction) <==> after.contains(
            instruction,
        )) by {
            if before.contains(instruction) {
                let i = choose|i: int| 0 <= i < before.len() && before[i] == instruction;
                if i < last.index {
                    assert(after[i] == instruction);
                } else {
                    assert(after[i + last.block.len()] == instruction);
                }
            }
            if after.contains(instruction) {
                let j = choose|j: int| 0 <= j < after.len() && after[j] == instruction;
                if j < last.index {
                    assert(before[j] == instruction);
                } else if j < last.index + last.block.len() {
                    assert(last.block[j - last.index] == instruction);
                } else {
                    assert(before[j - last.block.len()] == instruction);
                }
            }
        }
    }
}

/// The pattern of the insertion that is made at position `i` of a script, counted
/// from the first insertion after the scattered empty lines.
pub open spec fn pattern_at(i: int) -> DeadCode {
    if i < 0 {
        DeadCode::Blank
    } else if i < SHORT_PIECES {
        DeadCode::PushDelete
    } else if i < 2 * SHORT_PIECES {
        DeadCode::Sum
    } else if i < 3 * SHORT_PIECES {
        DeadCode::Difference
    } else if i < 4 * SHORT_PIECES {
        DeadCode::Double
    } else if i < 4 * SHORT_PIECES + LONG_PIECES {
        DeadCode::Ratio
    } else if i < 4 * SHORT_PIECES + 2 * LONG_PIECES {
        DeadCode::Square
    } else {
        DeadCode::Blank
    }
}

/// How many insertions follow the scattered empty lines.
pub open spec fn pieces() -> int {
    4 * SHORT_PIECES + 2 * LONG_PIECES + LAST_BLANKS
}

/// Whether `script` goes by the plan: first the scattered empty lines, one to three
/// for each round, then the pieces of each pattern in the order of [`pattern_at`],
/// as many as the constants say.
pub open spec fn scheduled(script: Seq<Insertion>) -> bool {
    let scattered = script.len() - pieces();
    &&& BLANK_ROUNDS <= scattered <= 3 * BLANK_ROUNDS
    &&& forall|i: int|
        0 <= i < script.len() ==> (#[trigger] script[i]).kind == pattern_at(i - scattered)
}

/// What the obfuscation makes of `lines` with the insertions of `script`: the no-ops
/// are taken out, the dead code is put in, and the labels are resolved.
pub open spec fn obfuscation(lines: Seq<Instruction>, script: Seq<Insertion>) -> Seq<Instruction> {
    resolved(apply(stripped(lines), script))
}

/// Whether `lines` can be obfuscated: they hold an instruction that is no no-op, and
/// every label that they refer to is declared.
pub open spec fn obfuscable(lines: Seq<Instruction>) -> bool {
    stripped(lines).len() > 0 && references_declared(lines)
}

/// How many pieces have gone in when `phase` of the seven patterns are done.
pub open spec fn planned(phase: int) -> int {
    if phase <= 4 {
        phase * SHORT_PIECES
    } else if phase <= 6 {
        4 * SHORT_PIECES + (phase - 4) * LONG_PIECES
    } else {
        pieces()
    }
}

/// Insertions never make the lines fewer.
pub proof fn lemma_apply_length(lines: Seq<Instruction>, script: Seq<Insertion>)
    requires
        admissible(lines, script),
    ensures
        apply(lines, script).len() >= lines.len(),
    decreases script.len(),
{
    if script.len() > 0 {
        lemma_apply_length(lines, script.drop_last());
    }
}

/// A script that is followed by insertions of one pattern makes one script.
proof fn lemma_extend(
    base: Seq<Instruction>,
    script: Seq<Insertion>,
    current: Seq<Instruction>,
    added: Seq<Insertion>,
    kind: DeadCode,
    next: Seq<Instruction>,
)
    requires
        apply(base, script) == current,
        admissible(base, script),
        apply(current, added) == next,
        admissible(current, added),
        all_of(kind, added),
    ensures
        apply(base, script + added) == next,
        admissible(base, script + added),
        forall|i: int| 0 <= i < script.len() ==> (#[trigger] (script + added)[i]) == script[i],
        forall|i: int|
            script.len() <= i < script.len() + added.len() ==> (#[trigger] (script + added)[i]).kind
                == kind,
{
    lemma_apply_concat(base, script, added);
    assert forall|i: int| script.len() <= i < script.len() + added.len() implies (#[trigger] (script
        + added)[i]).kind == kind by {
        assert((script + added)[i] == added[i - script.len()]);
    }
}

/// The first six steps of the obfuscation: takes the empty lines out, scatters new
/// ones, puts in the dead code of each pattern, and resolves the labels.
pub fn obfuscate_program(program: Program, rng: &mut StdRng) -> (plain: Program)
    requires
        obfuscable(program@.lines),
    ensures
        plain.well_formed(),
        forall|i: int| 0 <= i < plain@.lines.len() ==> !names_label(#[trigger] plain@.lines[i]),
        exists|script: Seq<Insertion>|
            {
                &&& #[trigger] obfuscation(program@.lines, script) == plain@.lines
                &&& scheduled(script)
                &&& admissible(stripped(program@.lines), script)
            },
{
    let ghost source = program@.lines;
    let ghost base = stripped(source);
    let mut lines = strip_blanks(&program.lines);
    let ghost kept = lines@;
    scatter_blanks(&mut lines, rng);
    let ghost mut script: Seq<Insertion> = choose|script: Seq<Insertion>|
        {
            &&& #[trigger] apply(base, script) == instructions(lines@)
            &&& BLANK_ROUNDS <= script.len() <= 3 * BLANK_ROUNDS
            &&& admissible(base, script)
            &&& all_of(DeadCode::Blank, script)
        };
    let ghost scattered = script.len() as int;
    let mut current = Program::from_lines(lines);
    let mut phase: usize = 0;
    while phase < 7
        invariant
            phase <= 7,
            current.well_formed(),
            current.lines.len() > 0,
            apply(base, script) == current@.lines,
            admissible(base, script),
            BLANK_ROUNDS <= scattered <= 3 * BLANK_ROUNDS,
            script.len() == scattered + planned(phase as int),
            forall|i: int|
                0 <= i < script.len() ==> (#[trigger] script[i]).kind == pattern_at(i - scattered),
        decreases 7 - phase,
    {
        let kind = if phase == 0 {
            DeadCode::PushDelete
        } else if phase == 1 {
            DeadCode::Sum
        } else if phase == 2 {
            DeadCode::Difference
        } else if phase == 3 {
            DeadCode::Double
        } else if phase == 4 {
            DeadCode::Ratio
        } else if phase == 5 {
            DeadCode::Square
        } else {
            DeadCode::Blank
        };
        let quantity = if phase < 4 {
            SHORT_PIECES
        } else if phase < 6 {
            LONG_PIECES
        } else {
            LAST_BLANKS
        };
        let ghost before = current@.lines;
        current = insert_dead_code(current, kind, quantity, rng);
        proof {
            let added = choose|added: Seq<Insertion>|
                {
                    &&& #[trigger] apply(before, added) == current@.lines
                    &&& added.len() == quantity
                    &&& admissible(before, added)
                    &&& all_of(kind, added)
                };
            lemma_extend(base, script, before, added, kind, current@.lines);
            lemma_apply_length(before, added);
            let longer = script + added;
            assert forall|i: int| 0 <= i < longer.len() implies (#[trigger] longer[i]).kind
                == pattern_at(i - scattered) by {
                if i < script.len() {
                    assert(longer[i] == script[i]);
                }
            }
            script = longer;
        }
        phase = phase + 1;
    }
    proof {
        lemma_stripped_names(source);
        lemma_apply_names(base, script);
        assert(same_names(source, current@.lines)) by {
            assert forall|instruction: Instruction| #[trigger]
                names_label(instruction) implies (source.contains(instruction)
                <==> current@.lines.contains(instruction)) by {
                assert(source.contains(instruction) <==> base.contains(instruction));
            }
        }
        lemma_references_carry(source, current@.lines);
    }
    let plain = resolve_labels(current);
    assert(obfuscation(source, script) == plain@.lines);
    plain
}

/// The random choices that are made for one line of the output.
#[derive(Debug, Clone, Copy, PartialEq, Eq, Structural)]
pub struct Noise {
    /// A space follows the line.
    pub trailing_space: bool,
    /// The indentation of the lines after this one grows by a space.
    pub grow_space: bool,
    /// The indentation of the lines after this one grows by a tab.
    pub grow_tab: bool,
    /// The indentation of the lines after this one loses its last character.
    pub shrink: bool,
}

/// The indentation after a line with the choices `noise` that is indented by
/// `indent`: first it grows, then it shrinks.
pub open spec fn next_indent(indent: Seq<char>, noise: Noise) -> Seq<char> {
    let with_space = if noise.grow_space {
        indent.push(' ')
    } else {
        indent
    };
    let with_tab = if noise.grow_tab {
        with_space.push('\t')
    } else {
        with_space
    };
    if noise.shrink && with_tab.len() > 0 {
        with_tab.drop_last()
    } else {
        with_tab
    }
}

/// The indentation of line `line`, which starts empty at the first line.
pub open spec fn indent_at(noise: Seq<Noise>, line: int) -> Seq<char>
    decreases line,
{
    if line <= 0 {
        Seq::empty()
    } else {
        next_indent(indent_at(noise, line - 1), noise[line - 1])
    }
}

/// One line of the output: the indentation, the text of the instruction, a space if
/// one was chosen, and a newline.
pub open spec fn written_line(instruction: Instruction, indent: Seq<char>, noise: Noise) -> Seq<
    char,
> {
    let line = indent + render(instruction);
    if noise.trailing_space {
        line.push(' ').push('\n')
    } else {
        line.push('\n')
    }
}

/// The first `count` lines of the output.
pub open spec fn written(lines: Seq<Instruction>, noise: Seq<Noise>, count: int) -> Seq<char>
    decreases count,
{
    if count <= 0 {
        Seq::empty()
    } else {
        written(lines, noise, count - 1) + written_line(
            lines[count - 1],
            indent_at(noise, count - 1),
            noise[count - 1],
        )
    }
}

/// The text of `lines`, one line for each instruction, with the choices of `noise`.
pub open spec fn serialized(lines: Seq<Instruction>, noise: Seq<Noise>) -> Seq<char> {
    written(lines, noise, lines.len() as int)
}

/// The choices that leave the text plain.
pub open spec fn quiet() -> Noise {
    Noise { trailing_space: false, grow_space: false, grow_tab: false, shrink: false }
}

/// The plain text of `lines`: each instruction on a line of its own.
pub open spec fn rendering(lines: Seq<Instruction>) -> Seq<char> {
    serialized(lines, Seq::new(lines.len(), |i: int| quiet()))
}

/// Writes `lines` as text, one line for each command, with the choices of `noise`.
pub fn write_lines(lines: &Vec<Command>, noise: &Vec<Noise>) -> (text: String)
    requires
        noise.len() == lines.len(),
    ensures
        text@ == serialized(instructions(lines@), noise@),
{
    let mut text = String::new();
    let mut indent: Vec<char> = Vec::new();
    let mut i: usize = 0;
    while i < lines.len()
        invariant
            i <= lines.len(),
            noise.len() == lines.len(),
            indent@ == indent_at(noise@, i as int),
            text@ == written(instructions(lines@), noise@, i as int),
        decreases lines.len() - i,
    {
        let choices = noise[i];
        let ghost before = text@;
        assert(indent@.subrange(0, indent.len() as int) =~= indent@);
        text.append(string_of(&indent, 0, indent.len()).as_str());
        text.append(lines[i].to_string().as_str());
        proof {
            reveal_strlit(" ");
            reveal_strlit("\n");
        }
        if choices.trailing_space {
            text.append(" ");
        }
        text.append("\n");
        assert(text@ =~= before + written_line(lines[i as int]@, indent@, choices));
        if choices.grow_space {
            indent.push(' ');
        }
        if choices.grow_tab {
            indent.push('\t');
        }
        if choices.shrink {
            indent.pop();
        }
        i = i + 1;
    }
    text
}

/// Writes `program` as plain text, each command on a line of its own.
pub fn render_program(program: &Program) -> (text: String)
    ensures
        text@ == rendering(program@.lines),
{
    let mut noise: Vec<Noise> = Vec::new();
    let mut i: usize = 0;
    while i < program.lines.len()
        invariant
            i <= program.lines.len(),
            noise.len() == i,
            forall|k: int| 0 <= k < i ==> noise[k] == quiet(),
        decreases program.lines.len() - i,
    {
        noise.push(
            Noise { trailing_space: false, grow_space: false, grow_tab: false, shrink: false },
        );
        i = i + 1;
    }
    assert(noise@ =~= Seq::new(program@.lines.len(), |i: int| quiet()));
    write_lines(&program.lines, &noise)
}

/// Draws the choices for `count` lines from `rng`: for each line in turn whether a
/// space follows it, with a chance of 1 in 50, and whether the indentation grows by
/// a space, by a tab, and shrinks, with chances of 1 in 20, 1 in 20 and 1 in 8.
pub fn draw_noise(count: usize, rng: &mut StdRng) -> (noise: Vec<Noise>)
    ensures
        noise.len() == count,
{
    let mut noise: Vec<Noise> = Vec::new();
    let mut i: usize = 0;
    while i < count
        invariant
            i <= count,
            noise.len() == i,
        decreases count - i,
    {
        let trailing_space = random_chance(rng, 1, 50);
        let grow_space = random_chance(rng, 1, 20);
        let grow_tab = random_chance(rng, 1, 20);
        let shrink = random_chance(rng, 1, 8);
        noise.push(Noise { trailing_space, grow_space, grow_tab, shrink });
        i = i + 1;
    }
    noise
}

/// Whether `program` can be obfuscated.
pub fn is_obfuscable(program: &Program) -> (b: bool)
    ensures
        b == obfuscable(program@.lines),
{
    let table = index_labels(&program.lines);
    let ghost lines = instructions(program.lines@);
    let mut holds_command = false;
    let mut i: usize = 0;
    assert(lines.take(0) =~= Seq::<Instruction>::empty());
    while i < program.lines.len()
        invariant
            i <= program.lines.len(),
            lines == instructions(program.lines@),
            table@ == label_table(lines),
            holds_command == (stripped(lines.take(i as int)).len() > 0),
            forall|k: int|
                0 <= k < i ==> ((#[trigger] lines[k]) matches Instruction::PushLabel(name)
                    ==> label_table(lines).contains_key(name)),
        decreases program.lines.len() - i,
    {
        proof {
            assert(lines.take(i + 1).drop_last() =~= lines.take(i as int));
            assert(lines[i as int] == program.lines[i as int]@);
        }
        match &program.lines[i] {
            Command::Null => {},
            Command::Push(PushArgument::Label(name)) => {
                if table.get(name).is_none() {
                    return false;
                }
                holds_command = true;
            },
            _ => {
                holds_command = true;
            },
        }
        i = i + 1;
    }
    assert(lines.take(i as int) =~= lines);
    holds_command
}

/// Obfuscates `program` and writes the result as text.
///
/// The empty lines are taken out, new ones and dead code are put in at positions
/// drawn from `rng`, each reference to a label is replaced by the position of its
/// declaration and each declaration by an empty line. The text holds one line for
/// each instruction, with white space around it that is drawn from `rng` too.
///
/// The program must hold a command that is no empty line, and declare the labels
/// that it refers to.
pub fn generate_fuxxor(program: Program, rng: &mut StdRng) -> (text: String)
    requires
        obfuscable(program@.lines),
    ensures
        well_formed_text(text@),
        exists|script: Seq<Insertion>, noise: Seq<Noise>|
            {
                &&& #[trigger] serialized(obfuscation(program@.lines, script), noise) == text@
                &&& scheduled(script)
                &&& admissible(stripped(program@.lines), script)
                &&& noise.len() == obfuscation(program@.lines, script).len()
            },
{
    let plain = obfuscate_program(program, rng);
    let noise = draw_noise(plain.lines.len(), rng);
    let text = write_lines(&plain.lines, &noise);
    proof {
        let script = choose|script: Seq<Insertion>|
            {
                &&& #[trigger] obfuscation(program@.lines, script) == plain@.lines
                &&& scheduled(script)
                &&& admissible(stripped(program@.lines), script)
            };
        assert(serialized(obfuscation(program@.lines, script), noise@) == text@);
        law_obfuscated_text_is_read(program@.lines, script, noise@);
    }
    text
}

} // verus!
