//! The values that the tokenization service receives and returns.

use std::collections::HashMap;
use vstd::prelude::*;

verus! {

/// How the simple tokenizer splits text.
#[derive(Clone, Copy, Debug, PartialEq, Eq, Structural)]
pub enum Method {
    /// On whitespace.
    Words,
    /// Into characters.
    Chars,
}

/// Text to split without a vocabulary.
pub struct SimpleRequest {
    pub text: String,
    pub method: Method,
}

/// Text to tokenize or encode.
pub struct TextRequest {
    pub text: String,
}

/// Ids to decode.
pub struct DecodeRequest {
    pub tokens: Vec<u32>,
}

/// Text to train on, and the vocabulary size to aim for.
pub struct TrainRequest {
    pub size: usize,
    pub text: String,
}

/// String tokens.
pub struct TokenizeResponse {
    pub tokens: Vec<String>,
}

/// Token ids.
pub struct EncodeResponse {
    pub tokens: Vec<u32>,
}

/// Decoded text.
pub struct DecodeResponse {
    pub text: String,
}

/// A trained vocabulary, each token shown as text.
pub struct VocabResponse {
    pub vocab_size: usize,
    pub vocab: HashMap<String, u32>,
}

} // verus!
