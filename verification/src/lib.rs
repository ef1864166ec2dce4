//! Front end of a small scripting language: a tokenizer for source text and a
//! stack of nested lexical scopes that hold variable bindings.

pub mod classify;
pub mod text;
pub mod token;
pub mod grammar;
pub mod lexer;
pub mod variable;
pub mod scope;
