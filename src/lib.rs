//! Lambda-calculus source text: lexing, parsing, free and bound variables,
//! canonical rendering and De Bruijn conversion.
pub mod debruijn;
pub mod lexer;
pub mod parser;
pub mod roundtrip;
pub mod term;

pub use debruijn::{DBIndices, DBLevels, DBTerm};
pub use lexer::{Lexer, Token};
pub use parser::{Parser, ParserError};
pub use term::LambdaTerm;
