//! A reader for a small Lisp-style expression language.
//!
//! Text such as `(add 5 (mul 2 3))` is turned into a tree of typed nodes in a
//! single pass over its characters, and a tree can be written back as
//! canonical text. Every function is verified against a mathematical model
//! of the reader.

pub mod sexpr;
