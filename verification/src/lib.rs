//! A small interpreter for a Lisp-family language of parenthesized forms.

pub mod ast;
pub mod interp;
pub mod lexer;
pub mod parser;
pub mod semantics;
pub mod text;
