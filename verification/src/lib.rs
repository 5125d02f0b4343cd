//! Guards and entity extraction for a knowledge-graph memory.

pub mod cache;
pub mod cold_start;
pub mod confidence;
pub mod endpoint_guard;
pub mod entity;
pub mod ip_addr;
pub mod lexical;
pub mod ner;
pub mod path_guard;
pub mod replay;
pub mod rules;
pub mod spans;
pub mod stop_words;
pub mod text;
pub mod typer;
pub mod unicode;
