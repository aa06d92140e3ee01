//! A small compiler front end for a language of `echo <literal>...` statements:
//! a lexer, a grammar over the raw source text, and a lowering stage that turns
//! statements into a plan of interned global strings and output calls.
pub mod ast;
pub mod codegen;
pub mod lexer;
pub mod parser;
pub mod text;
