//! Weft toolchain kernel: lexer, parser, typechecker, program index,
//! definition splicing and structured diagnostics.
pub mod text;
pub mod lines;
pub mod diag;
pub mod lexer;
pub mod ast;
pub mod types;
pub mod sort;
pub mod check;
pub mod convert;
pub mod exhaust;
pub mod parser;
pub mod exprs;
pub mod parse_ops;
pub mod parse_forms;
pub mod items;
pub mod parse_items;
pub mod index;
pub mod type_display;
pub mod names;
pub mod splice;
pub mod eval;
pub mod report;
