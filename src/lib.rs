//! A parser and serializer for the nginx configuration language.
//!
//! Text is split into lexemes (`lexer`), and the lexemes are read into a
//! typed directive tree (`parser`) by the rules of `grammar`. The tree is
//! rendered back into canonical text (`render`) and searched for blocks
//! (`query`). `laws` states how these fit together.

pub mod ast;
pub mod error;
pub mod grammar;
pub mod laws;
pub mod lexer;
pub mod parser;
pub mod query;
pub mod render;

pub use ast::{Directive, DirectiveValue, DirectiveView, NginxConfig, ValueView};
pub use error::NginxParserError;
