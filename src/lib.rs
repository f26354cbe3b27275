//! An assembler and disassembler for a small 16-bit teaching machine: a
//! fixed table of instruction types, the codec between assembly text and
//! four-nibble binary words, and the checks on whole source files.
pub mod table;
pub mod text;
pub mod codec;
pub mod instruction;
pub mod program;

pub use instruction::{CompileErr, Instruction};
pub use program::{RuntimeErr, Simulator};
pub use table::{InstructionType, OperandKind};
