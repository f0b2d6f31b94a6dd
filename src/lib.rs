//! A two-pass assembler for the Hack machine language: source lines in,
//! sixteen-character binary words out.

pub mod assembler;
pub mod code;
pub mod error;
pub mod parser;
pub mod symbol_table;
pub mod text;
