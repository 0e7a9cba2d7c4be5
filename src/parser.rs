//! The ISPL lexer, reachable from the crate root.

pub use crate::ispl::kinds::SyntaxKind;
pub use crate::ispl::tokenizer::{tokenize, Token, Tokenizer};
