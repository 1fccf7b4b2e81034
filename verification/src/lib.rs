//! Core of a per-language word service: lexicon curation, letter-distribution
//! profiles (tile bags, vowel/consonant/rare-letter classes), and randomized,
//! constraint-satisfying word and letter sampling.
//!
//! Everything here is pure computation over plain values; reading word-list
//! files and serving requests is left to the surrounding program.

pub mod letters;
pub mod words;
pub mod curation;
pub mod tables;
pub mod distribution;
pub mod language;
pub mod classifier;
pub mod matching;
pub mod sampler;
mod rng;
pub mod service;
