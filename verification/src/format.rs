//! The configuration file format, as mathematics over sequences of characters.
//!
//! A text is cut into lines at line feeds; a carriage return that directly
//! precedes a line feed belongs to the terminator. A line that holds the
//! delimiter `": "` defines an entry: the key is what stands before the first
//! occurrence of the delimiter, the value is everything after it. Later
//! entries replace earlier ones with the same key.

use vstd::prelude::*;

verus! {

/// Position of the first line feed in `text`, or `text.len()` where there is none.
pub open spec fn line_feed_index(text: Seq<char>) -> int
    decreases text.len(),
{
    if text.len() == 0 || text[0] == '\n' {
        0
    } else {
        1 + line_feed_index(text.drop_first())
    }
}

/// `line_feed_index` lies within the text, no line feed stands before it,
/// and one stands at it unless it is the end of the text.
pub proof fn lemma_line_feed_index(text: Seq<char>)
    ensures
        0 <= line_feed_index(text) <= text.len(),
        forall|j: int| 0 <= j < line_feed_index(text) ==> text[j] != '\n',
        line_feed_index(text) < text.len() ==> text[line_feed_index(text)] == '\n',
    decreases text.len(),
{
    if text.len() == 0 || text[0] == '\n' {
    } else {
        let rest = text.drop_first();
        lemma_line_feed_index(rest);
        assert forall|j: int| 0 <= j < line_feed_index(text) implies text[j] != '\n' by {
            if j > 0 {
                assert(text[j] == rest[j - 1]);
            }
        }
        if line_feed_index(text) < text.len() {
            assert(text[line_feed_index(text)] == rest[line_feed_index(rest)]);
        }
    }
}

/// A position within the text that has no line feed before it, and one
/// at it unless it is the end of the text, is `line_feed_index`.
pub proof fn lemma_line_feed_index_unique(text: Seq<char>, end: int)
    requires
        0 <= end <= text.len(),
        forall|j: int| 0 <= j < end ==> text[j] != '\n',
        end < text.len() ==> text[end] == '\n',
    ensures
        line_feed_index(text) == end,
{
    lemma_line_feed_index(text);
}

/// The first line of `text` without its terminator. The terminator is a
/// line feed, together with the carriage return before it where there is
/// one. A last line that no line feed ends keeps all its characters.
pub open spec fn first_line(text: Seq<char>) -> Seq<char> {
    let end = line_feed_index(text);
    if 0 < end < text.len() && text[end - 1] == '\r' {
        text.subrange(0, end - 1)
    } else {
        text.subrange(0, end)
    }
}

/// What follows the first line and its terminator.
pub open spec fn after_first_line(text: Seq<char>) -> Seq<char> {
    let end = line_feed_index(text);
    if end < text.len() {
        text.subrange(end + 1, text.len() as int)
    } else {
        Seq::empty()
    }
}

/// The lines of `text`, in order. An empty text has no lines; a line feed
/// at the very end of the text does not open another line.
pub open spec fn lines_of(text: Seq<char>) -> Seq<Seq<char>>
    decreases text.len(),
    via lines_of_decreases
{
    if text.len() == 0 {
        Seq::empty()
    } else {
        seq![first_line(text)] + lines_of(after_first_line(text))
    }
}

#[via_fn]
proof fn lines_of_decreases(text: Seq<char>) {
    lemma_line_feed_index(text);
}

/// Whether the delimiter `": "` stands in `line` at position `i`.
pub open spec fn delimiter_at(line: Seq<char>, i: int) -> bool {
    0 <= i && i + 1 < line.len() && line[i] == ':' && line[i + 1] == ' '
}

/// Position of the first delimiter in `line`, or `line.len()` where there is none.
pub open spec fn delimiter_index(line: Seq<char>) -> int
    decreases line.len(),
{
    if line.len() == 0 || delimiter_at(line, 0) {
        0
    } else {
        1 + delimiter_index(line.drop_first())
    }
}

/// `delimiter_index` lies within the line, no delimiter stands before it,
/// and one stands at it unless it is the end of the line.
pub proof fn lemma_delimiter_index(line: Seq<char>)
    ensures
        0 <= delimiter_index(line) <= line.len(),
        forall|j: int| 0 <= j < delimiter_index(line) ==> !delimiter_at(line, j),
        delimiter_index(line) < line.len() ==> delimiter_at(line, delimiter_index(line)),
    decreases line.len(),
{
    if line.len() == 0 || delimiter_at(line, 0) {
    } else {
        let rest = line.drop_first();
        lemma_delimiter_index(rest);
        assert forall|j: int| 0 <= j < delimiter_index(line) implies !delimiter_at(line, j) by {
            if j > 0 {
                assert(!delimiter_at(rest, j - 1));
            }
        }
        if delimiter_index(line) < line.len() {
            assert(delimiter_at(rest, delimiter_index(rest)));
        }
    }
}

/// A position within the line that has no delimiter before it, and one
/// at it unless it is the end of the line, is `delimiter_index`.
pub proof fn lemma_delimiter_index_unique(line: Seq<char>, at: int)
    requires
        0 <= at <= line.len(),
        forall|j: int| 0 <= j < at ==> !delimiter_at(line, j),
        at < line.len() ==> delimiter_at(line, at),
    ensures
        delimiter_index(line) == at,
{
    lemma_delimiter_index(line);
    let found = delimiter_index(line);
    if found < at {
        assert(!delimiter_at(line, found));
    } else if at < found {
        assert(!delimiter_at(line, at));
    }
}

/// Whether `line` holds the delimiter, and so defines an entry.
pub open spec fn has_delimiter(line: Seq<char>) -> bool {
    delimiter_index(line) < line.len()
}

/// The key of a line that holds the delimiter: what stands before the
/// first delimiter.
pub open spec fn key_of(line: Seq<char>) -> Seq<char> {
    line.subrange(0, delimiter_index(line))
}

/// The value of a line that holds the delimiter: everything after the
/// first delimiter, further delimiters included.
pub open spec fn value_of(line: Seq<char>) -> Seq<char> {
    line.subrange(delimiter_index(line) + 2, line.len() as int)
}

/// Whether `key` holds no delimiter.
pub open spec fn delimiter_free(key: Seq<char>) -> bool {
    forall|i: int| !delimiter_at(key, i)
}

/// The line that defines `key` as `value`: the key, the delimiter, the value.
pub open spec fn entry_line(key: Seq<char>, value: Seq<char>) -> Seq<char> {
    key + seq![':', ' '] + value
}

/// The line of an entry whose key holds no delimiter splits into that
/// entry again.
pub proof fn lemma_entry_line_splits(key: Seq<char>, value: Seq<char>)
    requires
        delimiter_free(key),
    ensures
        has_delimiter(entry_line(key, value)),
        key_of(entry_line(key, value)) == key,
        value_of(entry_line(key, value)) == value,
{
    let line = entry_line(key, value);
    assert forall|j: int| 0 <= j < key.len() implies !delimiter_at(line, j) by {
        if j + 1 < key.len() {
            assert(!delimiter_at(key, j));
        }
    }
    lemma_delimiter_index_unique(line, key.len() as int);
    assert(key_of(line) == key);
    assert(value_of(line) == value);
}

/// A line is malformed when it is not empty and holds no delimiter.
/// Empty lines are skipped and are never malformed.
pub open spec fn is_malformed(line: Seq<char>) -> bool {
    line.len() > 0 && !has_delimiter(line)
}

/// Whether `lines[i]` is the first malformed line of `lines`.
pub open spec fn first_malformed(lines: Seq<Seq<char>>, i: int) -> bool {
    &&& 0 <= i < lines.len()
    &&& is_malformed(lines[i])
    &&& forall|j: int| 0 <= j < i ==> !is_malformed(#[trigger] lines[j])
}

/// Whether none of `lines` is malformed.
pub open spec fn all_well_formed(lines: Seq<Seq<char>>) -> bool {
    forall|i: int| 0 <= i < lines.len() ==> !is_malformed(#[trigger] lines[i])
}

/// The mapping that `lines` define: each line that holds the delimiter
/// sets its key to its value, in order, so that of two lines with one key
/// the later one decides.
pub open spec fn entries_of(lines: Seq<Seq<char>>) -> Map<Seq<char>, Seq<char>>
    decreases lines.len(),
{
    if lines.len() == 0 {
        Map::empty()
    } else {
        let earlier = entries_of(lines.drop_last());
        let line = lines.last();
        if has_delimiter(line) {
            earlier.insert(key_of(line), value_of(line))
        } else {
            earlier
        }
    }
}

/// Whether every line of `text` is empty or holds the delimiter.
pub open spec fn is_well_formed(text: Seq<char>) -> bool {
    all_well_formed(lines_of(text))
}

/// The mapping that a configuration text defines.
pub open spec fn parsed(text: Seq<char>) -> Map<Seq<char>, Seq<char>> {
    entries_of(lines_of(text))
}

} // verus!
