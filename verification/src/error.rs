//! What can go wrong when a configuration is loaded or queried.

use vstd::prelude::*;
use crate::format::first_malformed;

verus! {

/// The failures that loading and lookup report.
#[derive(Debug, PartialEq, Eq)]
pub enum VaultError {
    /// A line that is not empty holds no `": "` delimiter. `number` counts
    /// the lines of the text from one; `content` is the offending line
    /// without its terminator.
    MalformedLine { number: usize, content: String },
    /// Neither the configuration nor the fallback has a value for the key.
    KeyNotFound,
}

impl VaultError {
    /// Whether this error reports the first malformed line of `lines`,
    /// with its number and its content.
    pub open spec fn reports_first_malformed(self, lines: Seq<Seq<char>>) -> bool {
        match self {
            VaultError::MalformedLine { number, content } => {
                &&& first_malformed(lines, number - 1)
                &&& content@ == lines[number - 1]
            },
            VaultError::KeyNotFound => false,
        }
    }
}

} // verus!
