//! A small Pascal-like compiler: a byte-level lexer, the syntax tree, and a
//! quadruple generator that resolves jump targets by backpatching.

pub mod ast;
pub mod diagnostics;
pub mod direct;
pub mod lexer;
pub mod listing;
pub mod parser;
pub mod pending;
pub mod quad;
pub mod scheme;
pub mod shape;
pub mod symbols;
pub mod targets;
pub mod text;
pub mod translate;
