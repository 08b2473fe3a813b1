//! Extraction of human-readable strings from binary images.
//!
//! The crate scans byte buffers for text in several encodings, filters the
//! candidates, plans overlapping chunks for parallel scans and merges the
//! per-chunk results into one ordered sequence.
//!
//! - [`extractor`] holds the engine, its configuration and the strings it
//!   reports; [`ascii`], [`utf16`] and [`gbk`] hold its scanners.
//! - [`chunk`] plans the chunks of a large input and scans them;
//!   [`merge`] puts their results together.
//! - [`output`] renders the results as records; [`config`] and [`error`]
//!   hold what the command line tool is asked to do and what can go wrong.
//! - [`codec`] and [`pattern`] hold the calls into the libraries that decode
//!   text and match patterns; [`digits`] writes numbers as text.
//! - [`memprocfs_path`] rewrites paths of a mounted memory file system.

pub mod ascii;
pub mod chunk;
pub mod codec;
pub mod config;
pub mod digits;
pub mod error;
pub mod extractor;
pub mod gbk;
pub mod memprocfs_path;
pub mod merge;
pub mod output;
pub mod pattern;
pub mod utf16;

pub use config::Config;
pub use error::MemstrapError;
pub use extractor::{Encoding, FoundString, StringExtractor};
pub use output::CsvOutput;
