//! A small machine with a stack and a tape, the assembler that reads its programs,
//! and an obfuscator that rewrites a program into one that does the same and is
//! harder to read.
//!
//! A program is a sequence of commands, each at the address that is its position.
//! [`parser`] reads it from text, [`machine`] executes it one command at a time,
//! [`driver`] describes whole runs, and [`obfuscate`] scatters dead code over it and
//! writes it out again. What holds of all of them is proved in [`laws`],
//! [`equivalence`] and [`roundtrip`].

pub mod driver;
pub mod equivalence;
pub mod instruction;
pub mod laws;
pub mod machine;
pub mod obfuscate;
pub mod parser;
pub mod program;
pub mod random;
pub mod roundtrip;
pub mod text;
