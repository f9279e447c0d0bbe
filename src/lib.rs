//! An assembler for a small 8-bit processor: source text is split into
//! tokens, each statement is checked and encoded, and the addresses of labels
//! are filled in.
pub mod assembly;
pub mod error;
pub mod instruction;
pub mod lexer;
pub mod parser;
pub mod token;

pub use assembly::Assembly;
pub use error::{AssemblyError, ErrorCode};
