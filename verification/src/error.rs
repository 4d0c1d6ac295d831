use vstd::prelude::*;

verus! {

/// Why a tokenizer could not do what it was asked for.
#[derive(Debug)]
pub struct TokenizerError {
    /// The reason, in words.
    pub message: String,
}

/// What a tokenizer's operations return.
pub type Result<T> = std::result::Result<T, TokenizerError>;

} // verus!
