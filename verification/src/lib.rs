//! Tokenizers and incremental detokenization.
//!
//! A [`Tokenizer`] turns text into token IDs and back. While a model generates, the text of its
//! tokens is wanted piece by piece: an [`IncrementalDecoder`] takes the tokens one at a time and
//! hands out text as soon as it is certain.
mod error;
mod incremental;
mod tokenizer;

pub mod byte_level;
pub mod fixture;
pub mod memo;
pub mod pieces;
pub mod streaming;
pub mod text;
pub mod utf8;

pub use error::{Result, TokenizerError};
pub use incremental::{DecodeStream, IncrementalDecoder, StreamModel, StreamStep};
pub use tokenizer::{Detokenizer, DynTokenizer, Tokenizer};
