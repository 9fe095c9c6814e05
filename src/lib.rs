pub mod ast;
pub mod chars;
pub mod grammar;
pub mod lexer;
pub mod parser;
pub mod source;
pub mod token;

pub use lexer::{LexError, Lexer};
pub use source::Source;
pub use token::{Store, Token};
