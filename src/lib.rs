//! A recursive-descent reader for S-expressions: text is split into tokens,
//! and the tokens are read into a tree of atoms and lists whose text borrows
//! from the source.

pub mod atom;
pub mod expression;
pub mod reader;
mod text;
pub mod tokenizer;

pub use crate::atom::parse_atom;
pub use crate::expression::{Expression, OwnedExpression, OwnedSymbol, StringOwnedSymbol};
pub use crate::reader::{read, read_unchecked, ParseError};
pub use crate::tokenizer::tokenize;
