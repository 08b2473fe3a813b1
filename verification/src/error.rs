//! The errors of the crate.

use vstd::prelude::*;

verus! {

/// `std::io::Error`, carried through without a look inside.
#[verifier::external_type_specification]
#[verifier::external_body]
pub struct ExIoError(std::io::Error);

/// `csv::Error`, carried through without a look inside.
#[verifier::external_type_specification]
#[verifier::external_body]
pub struct ExCsvError(csv::Error);

/// What can go wrong in a run.
#[derive(Debug)]
pub enum MemstrapError {
    /// Reading or writing failed.
    Io(std::io::Error),
    /// A record could not be written.
    Csv(csv::Error),
    /// The search expression did not compile.
    Regex(regex::Error),
    /// The input could not be mapped into memory.
    Mmap(String),
    /// An encoding was asked for that is not known.
    InvalidEncoding(String),
    /// The configuration is not usable.
    Config(String),
}

} // verus!
