//! A grammar-configurable reader for Lisp-like notations.
//!
//! A [`syntax::SyntaxGraph`] describes contexts, enclosers, symmetric enclosers
//! and operators. A [`parser::Parser`] scans text against such a graph and
//! yields position-annotated trees, which a [`document::Document`] indexes by
//! path and by source range. The module [`str_tagged`] describes grammars
//! with plain strings. The module [`parse`] holds a second, smaller reader
//! with a fixed scanning policy: delimiter pairs, prefix markers and strings.
pub mod ast;
pub mod document;
pub mod parse;
pub mod parser;
mod scan;
pub mod str_tagged;
pub mod syntax;
pub mod text;

pub use ast::DocumentSyntaxTree;
pub use ast::RawSexp;
pub use document::Document;
pub use parser::ParseError;
pub use parser::Parser;
pub use syntax::EncloserOrOperator;
pub use syntax::SyntaxContext;
pub use syntax::SyntaxGraph;
