//! The executable parser for configuration text.
//!
//! The parser searches the bytes of the text for line feeds and
//! delimiters and cuts the text there, so that keys and values are copied
//! once and nothing else is.

use vstd::prelude::*;
use vstd::hash_map::StringHashMap;
use vstd::string::StringSliceAdditionalSpecFns;
use vstd::utf8::encode_utf8;
use crate::ascii::{
    drop_ascii, lemma_ascii_byte_text, lemma_ascii_char_is_encoded, lemma_encode_empty,
    lemma_same_value, split_at_ascii,
};
use crate::error::VaultError;
use crate::format::{
    after_first_line, all_well_formed, delimiter_at, delimiter_free, entries_of, entry_line,
    first_line, has_delimiter, is_well_formed, key_of, lemma_delimiter_index_unique,
    lemma_entry_line_splits, lemma_line_feed_index_unique, lines_of, parsed, value_of,
};

verus! {

/// The entries that a map from keys to strings holds, each value seen as
/// its characters.
pub open spec fn text_entries(map: Map<Seq<char>, String>) -> Map<Seq<char>, Seq<char>> {
    map.map_values(|value: String| value@)
}

/// Whether the bytes of the delimiter stand in `bytes` at position `i`.
spec fn delimiter_bytes_at(bytes: Seq<u8>, i: int) -> bool {
    0 <= i && i + 1 < bytes.len() && bytes[i] == 0x3a && bytes[i + 1] == 0x20
}

/// Position of the first line feed in `bytes`, or `bytes.len()` where
/// there is none.
fn find_line_feed(bytes: &[u8]) -> (at: usize)
    ensures
        at <= bytes@.len(),
        forall|j: int| 0 <= j < at ==> bytes@[j] != 0x0a,
        at < bytes@.len() ==> bytes@[at as int] == 0x0a,
{
    let mut at: usize = 0;
    while at < bytes.len() && bytes[at] != 0x0a
        invariant
            at <= bytes@.len(),
            forall|j: int| 0 <= j < at ==> bytes@[j] != 0x0a,
        decreases bytes@.len() - at,
    {
        at += 1;
    }
    at
}

/// Position of the first delimiter in `bytes`, or `bytes.len()` where
/// there is none.
fn find_delimiter(bytes: &[u8]) -> (at: usize)
    ensures
        at <= bytes@.len(),
        forall|j: int| 0 <= j < at ==> !delimiter_bytes_at(bytes@, j),
        at < bytes@.len() ==> delimiter_bytes_at(bytes@, at as int),
        at == bytes@.len() ==> forall|j: int| !delimiter_bytes_at(bytes@, j),
{
    let mut at: usize = 0;
    while at < bytes.len() && !(at + 1 < bytes.len() && bytes[at] == 0x3a && bytes[at + 1] == 0x20)
        invariant
            at <= bytes@.len(),
            forall|j: int| 0 <= j < at ==> !delimiter_bytes_at(bytes@, j),
        decreases bytes@.len() - at,
    {
        at += 1;
    }
    at
}

/// A text whose bytes hold no delimiter holds none.
proof fn lemma_no_delimiter_bytes(line: Seq<char>, bytes: Seq<u8>)
    requires
        bytes == encode_utf8(line),
        forall|j: int| !delimiter_bytes_at(bytes, j),
    ensures
        delimiter_free(line),
{
    assert forall|i: int| !delimiter_at(line, i) by {
        if delimiter_at(line, i) {
            let p = lemma_ascii_char_is_encoded(line, i);
            assert(delimiter_bytes_at(bytes, p));
        }
    }
}

/// Cuts the first line off `text`: the line without its terminator, and
/// what follows the terminator.
fn take_line<'a>(text: &'a str) -> (parts: (&'a str, &'a str))
    requires
        text@.len() > 0,
    ensures
        parts.0@ == first_line(text@),
        parts.1@ == after_first_line(text@),
        parts.1.spec_bytes().len() < text.spec_bytes().len(),
{
    let feed = find_line_feed(text.as_bytes());
    let (line, tail) = split_at_ascii(text, feed);
    proof {
        lemma_encode_empty(text@);
        lemma_encode_empty(tail@);
        assert forall|i: int| 0 <= i < line@.len() implies line@[i] != '\n' by {
            if line@[i] == '\n' {
                let p = lemma_ascii_char_is_encoded(line@, i);
                assert(text.spec_bytes()[p] == 0x0a);
            }
        }
    }
    if tail.is_empty() {
        proof {
            assert(text@ == line@);
            lemma_line_feed_index_unique(text@, text@.len() as int);
            assert(text@.subrange(0, text@.len() as int) == text@);
        }
        return (line, tail);
    }
    let rest = drop_ascii(tail);
    proof {
        assert(text@[line@.len() as int] == tail@[0]);
        lemma_same_value(tail@[0], '\n');
        lemma_line_feed_index_unique(text@, line@.len() as int);
        assert(text@.subrange(line@.len() as int + 1, text@.len() as int) == rest@);
    }
    let bytes = line.as_bytes();
    if bytes.len() > 0 && bytes[bytes.len() - 1] == 0x0d {
        let (body, cr) = split_at_ascii(line, bytes.len() - 1);
        proof {
            let c = lemma_ascii_byte_text(cr@);
            lemma_same_value(c, '\r');
            assert(line@.last() == '\r');
            assert(text@[line@.len() - 1] == line@.last());
            assert(text@.subrange(0, line@.len() - 1) == body@);
        }
        (body, rest)
    } else {
        proof {
            if line@.len() > 0 && line@.last() == '\r' {
                let p = lemma_ascii_char_is_encoded(line@, line@.len() - 1);
                assert(bytes@[p] == 0x0d);
            }
            if line@.len() > 0 {
                assert(text@[line@.len() - 1] == line@.last());
            }
            assert(text@.subrange(0, line@.len() as int) == line@);
        }
        (line, rest)
    }
}

/// Splits a line at its first delimiter into key and value, if it holds
/// a delimiter.
fn split_entry<'a>(line: &'a str) -> (entry: Option<(&'a str, &'a str)>)
    ensures
        entry is Some <==> has_delimiter(line@),
        entry matches Some((key, value)) ==> key@ == key_of(line@) && value@ == value_of(line@),
{
    let at = find_delimiter(line.as_bytes());
    let (key, tail) = split_at_ascii(line, at);
    if tail.is_empty() {
        proof {
            lemma_encode_empty(tail@);
            lemma_no_delimiter_bytes(line@, line.spec_bytes());
            lemma_delimiter_index_unique(line@, line@.len() as int);
        }
        return None;
    }
    proof {
        lemma_encode_empty(tail@);
    }
    let after_colon = drop_ascii(tail);
    let value = drop_ascii(after_colon);
    proof {
        lemma_same_value(tail@[0], ':');
        lemma_same_value(after_colon@[0], ' ');
        assert(tail@ == seq![':', ' '] + value@);
        assert(line@ == entry_line(key@, value@));
        assert forall|j: int| !delimiter_bytes_at(key.spec_bytes(), j) by {
            if delimiter_bytes_at(key.spec_bytes(), j) {
                assert(delimiter_bytes_at(line.spec_bytes(), j));
            }
        }
        lemma_no_delimiter_bytes(key@, key.spec_bytes());
        lemma_entry_line_splits(key@, value@);
    }
    Some((key, value))
}

/// Parses configuration text into a map from keys to values.
///
/// The text is read line by line. Empty lines are skipped. Every other
/// line must hold the delimiter `": "`; what stands before its first
/// occurrence is the key, what follows it is the value, and a key that
/// comes again replaces the value it had. The first line that is neither
/// empty nor an entry ends the parse with `VaultError::MalformedLine`.
pub fn parse_text_to_map(text: &str) -> (r: Result<StringHashMap<String>, VaultError>)
    ensures
        r is Ok <==> is_well_formed(text@),
        match r {
            Ok(map) => text_entries(map@) == parsed(text@),
            Err(e) => e.reports_first_malformed(lines_of(text@)),
        },
{
    let mut map: StringHashMap<String> = StringHashMap::new();
    let mut rest: &str = text;
    let mut count: usize = 0;
    let ghost mut done: Seq<Seq<char>> = Seq::empty();
    // Every line takes at least one byte, so the count of lines cannot overflow.
    let total = text.as_bytes().len();
    while !rest.is_empty()
        invariant
            total == text.spec_bytes().len(),
            count == done.len(),
            count + rest.spec_bytes().len() <= total,
            lines_of(text@) == done + lines_of(rest@),
            all_well_formed(done),
            text_entries(map@) == entries_of(done),
        decreases rest.spec_bytes().len(),
    {
        let (line, next) = take_line(rest);
        proof {
            assert(lines_of(text@) == done.push(line@) + lines_of(next@));
            assert(done.push(line@).drop_last() == done);
        }
        count += 1;
        if !line.is_empty() {
            match split_entry(line) {
                Some((key, value)) => {
                    map.insert(key.to_owned(), value.to_owned());
                },
                None => {
                    assert(lines_of(text@)[count - 1] == line@);
                    assert(forall|j: int| 0 <= j < count - 1 ==> lines_of(text@)[j] == done[j]);
                    return Err(VaultError::MalformedLine { number: count, content: line.to_owned() });
                },
            }
        }
        proof {
            done = done.push(line@);
        }
        rest = next;
    }
    assert(lines_of(text@) == done);
    Ok(map)
}

} // verus!
