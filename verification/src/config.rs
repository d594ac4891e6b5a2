//! The configuration accessor: entries loaded from a file, with a fallback
//! for the keys that the file leaves open.

use vstd::prelude::*;
use vstd::hash_map::StringHashMap;
use crate::error::VaultError;
use crate::format::{is_well_formed, lines_of, parsed};
use crate::parser::{parse_text_to_map, text_entries};

verus! {

/// The value that a lookup of `key` yields: the entry of the configuration
/// where it has one, else the fallback, else nothing.
pub open spec fn resolve(
    entries: Map<Seq<char>, Seq<char>>,
    key: Seq<char>,
    fallback: Option<Seq<char>>,
) -> Option<Seq<char>> {
    if entries.contains_key(key) {
        Some(entries[key])
    } else {
        fallback
    }
}

/// The characters of an optional string.
pub open spec fn text_of(value: Option<String>) -> Option<Seq<char>> {
    match value {
        Some(s) => Some(s@),
        None => None,
    }
}

/// Key-value pairs loaded from a configuration file.
///
/// Keys and values are text and are kept verbatim. The view of a
/// configuration is the mapping from each key to its value.
pub struct VaultConfiguration {
    pub map: StringHashMap<String>,
}

impl View for VaultConfiguration {
    type V = Map<Seq<char>, Seq<char>>;

    open spec fn view(&self) -> Map<Seq<char>, Seq<char>> {
        text_entries(self.map@)
    }
}

impl VaultConfiguration {
    /// Builds a configuration from the text of the configuration file.
    ///
    /// `content` is `None` when no file is designated, which is not an
    /// error: the configuration is then empty and every lookup is decided
    /// by the fallback. Otherwise the text is parsed as
    /// [`parse_text_to_map`] describes, and a malformed line is reported.
    pub fn new(content: Option<&str>) -> (r: Result<Self, VaultError>)
        ensures
            match content {
                None => r is Ok && r->Ok_0@ == Map::<Seq<char>, Seq<char>>::empty(),
                Some(text) => {
                    &&& r is Ok <==> is_well_formed(text@)
                    &&& match r {
                        Ok(config) => config@ == parsed(text@),
                        Err(e) => e.reports_first_malformed(lines_of(text@)),
                    }
                },
            },
    {
        match content {
            None => Ok(VaultConfiguration { map: StringHashMap::new() }),
            Some(text) => {
                match parse_text_to_map(text) {
                    Ok(map) => Ok(VaultConfiguration { map }),
                    Err(e) => Err(e),
                }
            },
        }
    }

    /// Looks up `name`.
    ///
    /// The value that the configuration holds for `name` is returned
    /// verbatim. Where it holds none, `fallback` decides: the caller passes
    /// the value that the process environment has for a variable of the
    /// same name, if any. A key known to neither is `VaultError::KeyNotFound`.
    pub fn get_val(&self, name: &str, fallback: Option<String>) -> (r: Result<String, VaultError>)
        ensures
            match resolve(self@, name@, text_of(fallback)) {
                Some(value) => r is Ok && r->Ok_0@ == value,
                None => r == Err::<String, VaultError>(VaultError::KeyNotFound),
            },
            self@.contains_key(name@) ==> r is Ok && r->Ok_0@ == self@[name@],
            !self@.contains_key(name@) && fallback is Some ==> r == Ok::<String, VaultError>(
                fallback->Some_0,
            ),
            r is Err <==> !self@.contains_key(name@) && fallback is None,
    {
        match self.map.get(name) {
            Some(value) => Ok(value.clone()),
            None => match fallback {
                Some(value) => Ok(value),
                None => Err(VaultError::KeyNotFound),
            },
        }
    }
}

} // verus!
