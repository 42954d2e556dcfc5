pub mod ast;
pub mod lexer;
pub mod token;

pub use lexer::{LexError, Lexer};
pub use token::{Span, Token, TokenKind};
