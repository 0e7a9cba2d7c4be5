pub mod kinds;
pub mod tokenizer;

pub use kinds::SyntaxKind;
