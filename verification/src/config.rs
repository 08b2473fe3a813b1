//! What the tool is asked to do, and the defaults it falls back on.

use std::path::PathBuf;
use vstd::prelude::*;

verus! {

/// `std::path::PathBuf`, carried through without a look inside.
#[verifier::external_type_specification]
#[verifier::external_body]
pub struct ExPathBuf(std::path::PathBuf);

/// An encoding that a scan can be asked for.
#[derive(Debug, Clone, Copy, PartialEq, Eq, Structural)]
pub enum EncodingType {
    Ascii,
    Utf8,
    Utf16Le,
    Utf16Be,
    Gbk,
}

/// What a run of the tool was asked to do.
#[derive(Debug)]
pub struct Config {
    /// The image or file to scan.
    pub file_path: PathBuf,
    /// Where the records go; standard output when absent.
    pub output: Option<PathBuf>,
    /// The least length of a string that is reported.
    pub min_len: usize,
    /// The number of worker threads asked for.
    pub threads: Option<usize>,
    /// The text or expression that a string must match.
    pub search: Option<String>,
    /// Whether `search` is a regular expression.
    pub regex: bool,
    /// Whether the progress bar is switched off.
    pub no_progress: bool,
    /// The encodings asked for; none stands for the default four.
    pub encodings: Vec<EncodingType>,
    /// How many bytes of context to keep on each side of a string.
    pub context_bytes: Option<usize>,
}

/// No more threads than this are used unless more are asked for.
pub const MAX_DEFAULT_THREADS: usize = 8;

/// The number of threads for a machine with `cpus` processors when none is
/// asked for: one for each processor, up to `MAX_DEFAULT_THREADS`.
pub open spec fn default_threads(cpus: int) -> int {
    if cpus < MAX_DEFAULT_THREADS {
        cpus
    } else {
        MAX_DEFAULT_THREADS as int
    }
}

/// Calls `num_cpus::get`. The number depends on the machine and on what
/// the process may use of it, so nothing is claimed of it.
#[verifier::external_body]
fn available_cpus() -> (cpus: usize) {
    num_cpus::get()
}

/// The number of threads to use: the number asked for, or the default for
/// a machine with `cpus` processors.
pub fn threads_or_default(threads: Option<usize>, cpus: usize) -> (r: usize)
    ensures
        r == match threads {
            Some(n) => n as int,
            None => default_threads(cpus as int),
        },
{
    match threads {
        Some(n) => n,
        None => if cpus < MAX_DEFAULT_THREADS {
            cpus
        } else {
            MAX_DEFAULT_THREADS
        },
    }
}

/// The encodings that are scanned when none is asked for.
pub open spec fn default_encodings() -> Seq<EncodingType> {
    seq![EncodingType::Ascii, EncodingType::Utf8, EncodingType::Utf16Le, EncodingType::Utf16Be]
}

impl Config {
    /// The encodings to scan for: those asked for, or the default four.
    pub fn get_encodings(&self) -> (r: Vec<EncodingType>)
        ensures
            r@ == if self.encodings@.len() == 0 {
                default_encodings()
            } else {
                self.encodings@
            },
    {
        if self.encodings.is_empty() {
            vec![
                EncodingType::Ascii,
                EncodingType::Utf8,
                EncodingType::Utf16Le,
                EncodingType::Utf16Be,
            ]
        } else {
            self.encodings.clone()
        }
    }

    /// The number of threads to use: the number asked for, or else the
    /// number of processors at hand, up to `MAX_DEFAULT_THREADS`.
    pub fn get_threads(&self) -> (r: usize)
        ensures
            match self.threads {
                Some(n) => r == n,
                None => r <= MAX_DEFAULT_THREADS,
            },
    {
        match self.threads {
            Some(n) => n,
            None => threads_or_default(None, available_cpus()),
        }
    }
}

} // verus!
