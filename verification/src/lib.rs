//! A toy language with `let`, `scope` and `import` statements: a lossless
//! lexer and parser that build a concrete syntax tree with the `rowan` green
//! tree builder, typed views over that tree, and a scope graph that resolves
//! every name reference to its declaration.

pub mod ast;
pub mod counts;
pub mod grammar;
pub mod green;
pub mod interner;
pub mod lexer;
pub mod parser;
pub mod scope_graph;
pub mod syntax;
pub mod syntax_kind;
