//! A small configuration accessor.
//!
//! A configuration file is plain text with one `key: value` pair per line.
//! [`VaultConfiguration`] keeps the pairs of such a file and answers lookups,
//! deferring to a fallback value (the caller's view of the process
//! environment) for keys that the file does not define.
//!
//! The meaning of the file format is given in [`format`] over sequences of
//! characters; the parser in [`parser`] and the accessor in [`config`] are
//! proved against it, and [`laws`] states what follows for every text.
//! [`ascii`] holds what the parser needs to know of UTF-8 to work on bytes.

pub mod ascii;
pub mod config;
pub mod error;
pub mod format;
pub mod laws;
pub mod parser;

pub use config::VaultConfiguration;
pub use error::VaultError;
pub use parser::parse_text_to_map;
