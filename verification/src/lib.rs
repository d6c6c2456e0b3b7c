//! Ranked multi-token meme search and the library records it works on.
use vstd::prelude::*;

pub mod text;
pub mod sets;
pub mod order;
pub mod normalize;
pub mod types;
pub mod parse;
pub mod matcher;
pub mod index;
pub mod engine;
pub mod pipeline;
pub mod rank;
pub mod synonyms;
pub mod storage;
pub mod window;

verus! {
} // verus!
