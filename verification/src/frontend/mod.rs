//! Source text to tree: the parser, the translation to the AST, and the
//! rewrites between the tree the parser builds and the one the backends read.
pub mod fold;
pub mod grammar;
pub mod invert;
pub mod lex;
pub mod parse;
pub mod rewrite;
pub mod scope;
