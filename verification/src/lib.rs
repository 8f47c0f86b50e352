//! A minimal text-templating engine.
//!
//! A template is literal text interleaved with `{{name}}` placeholders. It is
//! split into tokens, the tokens become a tree of nodes, and the tree is
//! rendered against a mapping from names to values.
pub mod ast;
pub mod parser;
pub mod render;
