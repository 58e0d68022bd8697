//! Counting of bytes, characters, words and newlines over byte streams.
//!
//! Each scan strategy is a small streaming state machine: the caller feeds it
//! chunks of input and asks it for the final counts. Every strategy is proved
//! against a mathematical model of the bytes seen so far.
pub mod batch;
pub mod cli;
pub mod count;
pub mod error;
pub mod format;
pub mod paths;
