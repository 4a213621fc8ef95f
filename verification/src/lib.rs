//! Speech recognition and forced alignment: prompts, caches, streaming, tokenization and
//! timestamps, with their behaviour stated and proved.

pub mod align;
pub mod chunking;
pub mod command;
pub mod config;
pub mod diagnostics;
pub mod double;
pub mod history;
pub mod inference;
pub mod mel;
pub mod prompt;
pub mod stream;
pub mod streaming;
pub mod tensor;
pub mod text;
pub mod text_decoder;
pub mod timestamp;
pub mod tokenize;
pub mod transcript;
pub mod weights;
