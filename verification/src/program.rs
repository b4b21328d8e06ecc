//! Programs: commands at their addresses, and the table of the labels declared in
//! them.

use vstd::prelude::*;
use crate::instruction::{instructions, Command, Instruction};

verus! {

/// The label table that a sequence of instructions defines: each declared name is
/// mapped to the position of its declaration, the last one where a name repeats.
pub open spec fn label_table(lines: Seq<Instruction>) -> Map<Seq<char>, usize>
    decreases lines.len(),
{
    if lines.len() == 0 {
        Map::empty()
    } else {
        let before = label_table(lines.drop_last());
        match lines.last() {
            Instruction::LabelDecl(name) => before.insert(name, (lines.len() - 1) as usize),
            _ => before,
        }
    }
}

/// What a list of entries maps each name to: the entry entered last wins.
pub open spec fn table_of(entries: Seq<(String, usize)>) -> Map<Seq<char>, usize>
    decreases entries.len(),
{
    if entries.len() == 0 {
        Map::empty()
    } else {
        table_of(entries.drop_last()).insert(entries.last().0@, entries.last().1)
    }
}

/// A map from label names to positions.
pub struct LabelTable {
    entries: Vec<(String, usize)>,
}

impl View for LabelTable {
    type V = Map<Seq<char>, usize>;

    closed spec fn view(&self) -> Map<Seq<char>, usize> {
        table_of(self.entries@)
    }
}

/// A name is mapped to what its last entry holds.
proof fn lemma_table_of_last_occurrence(entries: Seq<(String, usize)>, name: Seq<char>, at: int)
    requires
        0 <= at < entries.len(),
        entries[at].0@ == name,
        forall|j: int| at < j < entries.len() ==> entries[j].0@ != name,
    ensures
        table_of(entries).contains_key(name),
        table_of(entries)[name] == entries[at].1,
    decreases entries.len(),
{
    if at < entries.len() - 1 {
        lemma_table_of_last_occurrence(entries.drop_last(), name, at);
    }
}

/// A name without an entry is not mapped.
proof fn lemma_table_of_absent(entries: Seq<(String, usize)>, name: Seq<char>)
    requires
        forall|j: int| 0 <= j < entries.len() ==> entries[j].0@ != name,
    ensures
        !table_of(entries).contains_key(name),
    decreases entries.len(),
{
    if entries.len() > 0 {
        lemma_table_of_absent(entries.drop_last(), name);
    }
}

impl LabelTable {
    /// The table without any entry.
    pub fn new() -> (table: LabelTable)
        ensures
            table@ == Map::<Seq<char>, usize>::empty(),
    {
        LabelTable { entries: Vec::new() }
    }

    /// Maps `name` to `position`, in place of what it was mapped to before.
    pub fn insert(&mut self, name: String, position: usize)
        ensures
            final(self)@ == old(self)@.insert(name@, position),
    {
        let ghost before = self.entries@;
        self.entries.push((name, position));
        assert(self.entries@.drop_last() =~= before);
    }

    /// The position that `name` is mapped to, if any.
    pub fn get(&self, name: &String) -> (position: Option<usize>)
        ensures
            position == if self@.contains_key(name@) {
                Some(self@[name@])
            } else {
                None
            },
    {
        let mut i: usize = self.entries.len();
        while i > 0
            invariant
                i <= self.entries.len(),
                forall|j: int| i <= j < self.entries.len() ==> self.entries[j].0@ != name@,
            decreases i,
        {
            i = i - 1;
            if self.entries[i].0 == *name {
                proof {
                    lemma_table_of_last_occurrence(self.entries@, name@, i as int);
                }
                return Some(self.entries[i].1);
            }
        }
        proof {
            lemma_table_of_absent(self.entries@, name@);
        }
        None
    }
}

/// Mathematical model of a [`Program`].
pub struct ProgramModel {
    pub lines: Seq<Instruction>,
    pub labels: Map<Seq<char>, usize>,
}

/// A sequence of commands, each at the address that is its position, with the table
/// of the labels declared in it.
pub struct Program {
    pub lines: Vec<Command>,
    pub labels: LabelTable,
}

impl View for Program {
    type V = ProgramModel;

    open spec fn view(&self) -> ProgramModel {
        ProgramModel { lines: instructions(self.lines@), labels: self.labels@ }
    }
}

impl ProgramModel {
    /// Every position is an address, and the table holds exactly the labels that
    /// the lines declare.
    pub open spec fn well_formed(self) -> bool {
        self.lines.len() <= usize::MAX && self.labels == label_table(self.lines)
    }
}

impl Program {
    /// The table holds exactly the labels that the lines declare.
    pub open spec fn well_formed(&self) -> bool {
        self@.well_formed()
    }

    /// The program made of `lines`, with its label table.
    pub fn from_lines(lines: Vec<Command>) -> (program: Program)
        ensures
            program.lines == lines,
            program.well_formed(),
    {
        let labels = index_labels(&lines);
        assert(instructions(lines@).len() == lines.len());
        Program { lines, labels }
    }

    /// A copy of this program.
    pub fn duplicate(&self) -> (copy: Program)
        ensures
            copy@ == self@,
            copy.lines@ == self.lines@,
    {
        let mut lines: Vec<Command> = Vec::new();
        let mut i: usize = 0;
        while i < self.lines.len()
            invariant
                i <= self.lines.len(),
                lines@ == self.lines@.take(i as int),
            decreases self.lines.len() - i,
        {
            lines.push(self.lines[i].duplicate());
            i = i + 1;
            assert(lines@ =~= self.lines@.take(i as int));
        }
        assert(lines@ =~= self.lines@);
        let mut entries: Vec<(String, usize)> = Vec::new();
        let mut j: usize = 0;
        while j < self.labels.entries.len()
            invariant
                j <= self.labels.entries.len(),
                entries@ == self.labels.entries@.take(j as int),
            decreases self.labels.entries.len() - j,
        {
            entries.push((self.labels.entries[j].0.clone(), self.labels.entries[j].1));
            j = j + 1;
            assert(entries@ =~= self.labels.entries@.take(j as int));
        }
        assert(entries@ =~= self.labels.entries@);
        Program { lines, labels: LabelTable { entries } }
    }
}

/// Unfolds [`label_table`] at the last line.
pub proof fn lemma_label_table_push(lines: Seq<Instruction>, last: Instruction)
    ensures
        label_table(lines.push(last)) == match last {
            Instruction::LabelDecl(name) => label_table(lines).insert(name, lines.len() as usize),
            _ => label_table(lines),
        },
{
    assert(lines.push(last).drop_last() =~= lines);
}

/// Scans `lines` for label declarations and records where each one stands.
pub fn index_labels(lines: &Vec<Command>) -> (table: LabelTable)
    ensures
        table@ == label_table(instructions(lines@)),
{
    let mut table = LabelTable::new();
    let mut i: usize = 0;
    while i < lines.len()
        invariant
            i <= lines.len(),
            table@ == label_table(instructions(lines@.take(i as int))),
        decreases lines.len() - i,
    {
        proof {
            lemma_label_table_push(instructions(lines@.take(i as int)), lines[i as int]@);
            assert(instructions(lines@.take(i + 1)) =~= instructions(lines@.take(i as int)).push(
                lines[i as int]@,
            ));
        }
        match &lines[i] {
            Command::Label(name) => {
                table.insert(name.clone(), i);
            },
            _ => {},
        }
        i = i + 1;
    }
    assert(lines@.take(i as int) =~= lines@);
    table
}

} // verus!
