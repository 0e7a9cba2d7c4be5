//! A small CTL model checker over explicit Kripke structures, with a
//! context-sensitive tokenizer for ISPL model descriptions.

pub mod formulas;
pub mod ispl;
pub mod models;
pub mod parser;
pub mod satisfies;
