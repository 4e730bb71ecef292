//! A lexer for a small programming language: it turns source text into a
//! sequence of tokens, one token per step, never looking more than one
//! character ahead.
//!
//! `grammar` defines, over sequences of characters, which token starts an
//! input and how much of the input it takes. `token` holds the executable
//! `Lexer`, whose contracts are stated over those definitions. `laws` proves
//! what holds of the grammar on every input.

pub mod grammar;
pub mod laws;
pub mod token;
