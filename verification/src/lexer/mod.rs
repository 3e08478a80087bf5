pub mod chars;
pub mod lexer;
pub mod span;
pub mod token;

pub use lexer::{Lexer, LexerError};
pub use span::Span;
pub use token::{Token, TokenType};
