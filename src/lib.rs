//! A tokenizer for a YAML-like byte stream.
//!
//! The tokenizer reads bytes one at a time, resolves multi-character
//! indicators with bounded lookahead that it can undo exactly, and hands out
//! one token per call.
pub mod laws;
pub mod lexical;
pub mod token;
pub mod tokenizer;

pub use token::{LineBreakType, Token, YamlVersion};
pub use tokenizer::Tokenizer;
