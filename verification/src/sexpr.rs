//! The expression reader: the tree, the token classifier, the tree builder
//! and the character scanner that drives them.

pub mod decimal;
pub mod error;
pub mod expr;
pub mod expr_parser;
pub mod parse_to_ast;
pub mod round_trip;
pub mod sexpr_parser;
pub mod text;
