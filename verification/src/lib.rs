//! The frontend of the zippy programming language: lexing, layout, parsing
//! and the analyses that run on the resulting trees.

pub mod ast;
pub mod invalid;
pub mod check;
pub mod checked;
pub mod clarify;
pub mod components;
pub mod dependencies;
pub mod flattened;
pub mod flattening;
pub mod hir;
pub mod kick;
pub mod messages;
pub mod names;
pub mod parse;
pub mod parser;
pub mod resolved;
pub mod source;
pub mod text;
pub mod vecs;
