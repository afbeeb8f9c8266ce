//! Phonetic modelling and ranked rhyme search over an inflected Russian dictionary.
//!
//! The library transcribes orthographic text into phoneme strings, models words as
//! sequences of vowels and consonants, indexes a dictionary of word forms, and selects
//! the best scored candidates for a query. Real-valued scoring (phonetic distances,
//! semantic vectors) is done by the caller; the library supplies the alignment of two
//! words, the eligible candidates and the bounded top-N selection over integer keys.

pub mod phoneme;
pub mod text;
pub mod transcription;
pub mod word;
pub mod metric;
pub mod dictionary;
pub mod ranking;
pub mod query;
