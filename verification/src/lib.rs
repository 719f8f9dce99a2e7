//! A small JSON processing library in two verified stages: a lexer that
//! turns raw text into a token sequence (`lexer`), and a recursive-descent
//! parser that turns the token sequence into a value tree (`parser`), with
//! `parse_json` chaining the two. Each stage's behaviour — which inputs
//! succeed, which fail, and with which error — is stated in full against
//! mathematical models of tokens and values, and proved.

pub mod lexer;
pub mod parser;
pub mod utils;
