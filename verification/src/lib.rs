//! Agent-first command interface framework: a verified command model, parser,
//! registry and renderers.

pub mod cli;
pub mod derive;
pub mod flag;
pub mod input_validation;
pub mod json;
pub mod markdown;
pub mod model;
pub mod order;
pub mod parser;
pub mod query;
pub mod render;
pub mod source;
pub mod resolver;
pub mod text;
pub mod tokenizer;
