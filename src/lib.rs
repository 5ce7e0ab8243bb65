pub mod token;
pub mod grammar;
pub mod lexer;
pub mod render;
pub mod laws;

pub use token::{Decimal, ErrorKind, LexerError, Number, Token};
pub use lexer::{get_literal, get_number, get_string, json_tokenize, parse_literal, tokenize_chars};
pub use render::render_tokens;
