//! Byte-pair-encoding vocabulary training over symbol sequences, and greedy
//! longest-match encoding with a trained vocabulary.
//!
//! A trainer ([`Tokenizer`]) owns a working corpus and a vocabulary. One
//! merge iteration counts the adjacent token pairs of the corpus, selects
//! the most frequent one ([`select`]), adds its concatenation to the
//! vocabulary and rewrites the corpus with it ([`rewrite`]). The encoder
//! ([`encoder`]) cuts a text into the longest vocabulary entries that match
//! and maps them to their ids.
//!
//! Contracts are stated over sequences of characters: a token is a
//! `Seq<char>`, a corpus and a vocabulary are sequences of tokens
//! ([`token`]).

pub mod encoder;
pub mod records;
pub mod rewrite;
pub mod select;
pub mod token;
pub mod trainer;

pub use encoder::EncodeError;
pub use trainer::Tokenizer;
