//! Access to the lexer's token stream for tests.

pub use crate::lexer::{tokenize, Token, TokenKind};
