//! Lexical analysis for a small C-like scripting language: let-bindings,
//! lambda literals, conditionals, integer arithmetic and boolean literals.
//!
//! The scanner's behaviour is stated as spec functions over the characters
//! of the source text (`lexer::scan`, `lexer::lex_step`, `lexer::lex_all`),
//! and the executable lexer is proved to follow them.
use vstd::prelude::*;

pub mod token;
pub mod lexer;
pub mod laws;
