//! Lexing of arithmetic expressions into literals, variables and operators,
//! with folding of a unary minus that follows another operator.
pub mod chars;
pub mod laws;
pub mod lexer;
pub mod normalize;
pub mod token;
pub mod tokenize;

pub use token::{Direction, Operator, Token, TokenizeError, TokenizerState};
pub use tokenize::tokenize;
