//! Subword tokenization: a trainable byte-level BPE codec and a greedy
//! longest-match segmenter over a scored vocabulary.

pub mod byte_level_bpe;
pub mod models;
pub mod settings;
pub mod simple_tokenizer;
pub mod standard_bpe;
pub mod text;

pub use byte_level_bpe::ByteLevelBPE;
pub use simple_tokenizer::SimpleTokenizer;
pub use standard_bpe::{DataFormatError, StandardBPE};
