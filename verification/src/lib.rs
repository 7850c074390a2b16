//! A GPT-NeoX byte-level BPE tokenizer with verified contracts.
//!
//! The pipeline splits a text on the vocabulary's special tokens, optionally
//! lower-cases the remaining pieces, splits them into words with two regular
//! expressions, maps every word to its UTF-8 bytes (each byte shown as one
//! printable character) and merges those characters with the ranked BPE merge
//! table. Decoding maps the characters back to bytes. Encoding turns tokens
//! into ids, truncates them to a maximum length and puts the special tokens
//! around the sequences.

pub mod unicode;
pub mod bytes;
pub mod token;
pub mod bpe;
pub mod split;
pub mod pattern;
pub mod vocab;
pub mod tokenizer;
pub mod loading;
pub mod encode;
