//! Text-expansion engine: tokenizer for short contents, configuration
//! assembly, content resolution and the key-input state machine.

pub mod text;
pub mod tokenizer;
pub mod config;
pub mod expand;
pub mod input;
pub mod opts;
