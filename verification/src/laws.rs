//! What holds of every configuration text, stated over the format's
//! mathematics and over `resolve`, the meaning of a lookup.

use vstd::prelude::*;
use crate::config::resolve;
use crate::format::{
    after_first_line, delimiter_free, entries_of, entry_line, first_line, has_delimiter,
    is_well_formed, key_of, lemma_entry_line_splits, lemma_line_feed_index_unique, lines_of,
    parsed, value_of,
};

verus! {

/// The text of a file with one line for each of `entries`, in order, each
/// line ended by a line feed.
pub open spec fn render(entries: Seq<(Seq<char>, Seq<char>)>) -> Seq<char>
    decreases entries.len(),
{
    if entries.len() == 0 {
        Seq::empty()
    } else {
        entry_line(entries[0].0, entries[0].1) + seq!['\n'] + render(entries.drop_first())
    }
}

/// Whether a line can carry the pair unchanged: neither part holds a line
/// feed, the key holds no delimiter, and the value does not end in a
/// carriage return, which would be taken for a part of the line's
/// terminator.
pub open spec fn fits_on_a_line(key: Seq<char>, value: Seq<char>) -> bool {
    &&& forall|i: int| 0 <= i < key.len() ==> key[i] != '\n'
    &&& forall|i: int| 0 <= i < value.len() ==> value[i] != '\n'
    &&& delimiter_free(key)
    &&& value.len() > 0 ==> value.last() != '\r'
}

/// Whether each of `entries` fits on a line.
pub open spec fn all_fit(entries: Seq<(Seq<char>, Seq<char>)>) -> bool {
    forall|i: int| 0 <= i < entries.len() ==> fits_on_a_line(
        (#[trigger] entries[i]).0,
        entries[i].1,
    )
}

/// The lines of a rendered file are the lines of its entries.
pub proof fn lemma_lines_of_render(entries: Seq<(Seq<char>, Seq<char>)>)
    requires
        all_fit(entries),
    ensures
        lines_of(render(entries)).len() == entries.len(),
        forall|i: int|
            0 <= i < entries.len() ==> #[trigger] lines_of(render(entries))[i] == entry_line(
                entries[i].0,
                entries[i].1,
            ),
    decreases entries.len(),
{
    if entries.len() > 0 {
        let head = entries[0];
        let tail = entries.drop_first();
        let line = entry_line(head.0, head.1);
        let text = render(entries);
        assert(fits_on_a_line(head.0, head.1));
        assert(all_fit(tail)) by {
            assert forall|i: int| 0 <= i < tail.len() implies fits_on_a_line(
                (#[trigger] tail[i]).0,
                tail[i].1,
            ) by {
                assert(tail[i] == entries[i + 1]);
            }
        }
        lemma_lines_of_render(tail);
        lemma_line_feed_index_unique(text, line.len() as int);
        assert(first_line(text) == line);
        assert(after_first_line(text) == render(tail));
        assert forall|i: int| 0 <= i < entries.len() implies #[trigger] lines_of(text)[i]
            == entry_line(entries[i].0, entries[i].1) by {
            if i > 0 {
                assert(lines_of(text)[i] == lines_of(render(tail))[i - 1]);
                assert(tail[i - 1] == entries[i]);
            }
        }
    }
}

/// A key has the value of the last line that defines it.
pub proof fn lemma_last_line_decides(lines: Seq<Seq<char>>, j: int)
    requires
        0 <= j < lines.len(),
        has_delimiter(lines[j]),
        forall|i: int|
            j < i < lines.len() && has_delimiter(#[trigger] lines[i]) ==> key_of(lines[i])
                != key_of(lines[j]),
    ensures
        entries_of(lines).contains_key(key_of(lines[j])),
        entries_of(lines)[key_of(lines[j])] == value_of(lines[j]),
    decreases lines.len(),
{
    if j + 1 < lines.len() {
        let earlier = lines.drop_last();
        assert(has_delimiter(lines.last()) ==> key_of(lines.last()) != key_of(lines[j]));
        lemma_last_line_decides(earlier, j);
    }
}

/// A key that some line defines is in the mapping.
pub proof fn lemma_defined_key_is_present(lines: Seq<Seq<char>>, i: int)
    requires
        0 <= i < lines.len(),
        has_delimiter(lines[i]),
    ensures
        entries_of(lines).contains_key(key_of(lines[i])),
    decreases lines.len(),
{
    if i + 1 < lines.len() {
        lemma_defined_key_is_present(lines.drop_last(), i);
    }
}

/// A key that no line defines is not in the mapping.
pub proof fn lemma_undefined_key_is_absent(lines: Seq<Seq<char>>, key: Seq<char>)
    requires
        forall|i: int|
            0 <= i < lines.len() && has_delimiter(#[trigger] lines[i]) ==> key_of(lines[i]) != key,
    ensures
        !entries_of(lines).contains_key(key),
    decreases lines.len(),
{
    if lines.len() > 0 {
        let earlier = lines.drop_last();
        assert(has_delimiter(lines.last()) ==> key_of(lines.last()) != key);
        lemma_undefined_key_is_absent(earlier, key);
    }
}

/// Last line wins: where several lines of a text define one key, a lookup
/// of the key yields the value of the last of them, whatever the fallback.
pub proof fn law_last_line_decides(text: Seq<char>, j: int, fallback: Option<Seq<char>>)
    requires
        0 <= j < lines_of(text).len(),
        has_delimiter(lines_of(text)[j]),
        forall|i: int|
            j < i < lines_of(text).len() && has_delimiter(#[trigger] lines_of(text)[i]) ==> key_of(
                lines_of(text)[i],
            ) != key_of(lines_of(text)[j]),
    ensures
        resolve(parsed(text), key_of(lines_of(text)[j]), fallback) == Some(
            value_of(lines_of(text)[j]),
        ),
{
    lemma_last_line_decides(lines_of(text), j);
}

/// A key that some line of a text defines is decided by the text: the
/// fallback is not consulted.
pub proof fn law_defined_key_ignores_fallback(
    text: Seq<char>,
    i: int,
    fallback: Option<Seq<char>>,
)
    requires
        0 <= i < lines_of(text).len(),
        has_delimiter(lines_of(text)[i]),
    ensures
        resolve(parsed(text), key_of(lines_of(text)[i]), fallback) == resolve(
            parsed(text),
            key_of(lines_of(text)[i]),
            None,
        ),
        resolve(parsed(text), key_of(lines_of(text)[i]), fallback) is Some,
{
    lemma_defined_key_is_present(lines_of(text), i);
}

/// A key that no line of a text defines is decided by the fallback alone.
pub proof fn law_undefined_key_falls_back(
    text: Seq<char>,
    key: Seq<char>,
    fallback: Option<Seq<char>>,
)
    requires
        forall|i: int|
            0 <= i < lines_of(text).len() && has_delimiter(#[trigger] lines_of(text)[i]) ==> key_of(
                lines_of(text)[i],
            ) != key,
    ensures
        resolve(parsed(text), key, fallback) == fallback,
{
    lemma_undefined_key_is_absent(lines_of(text), key);
}

/// A rendered file is well formed, and every entry that no later entry
/// repeats the key of is found again with its value.
pub proof fn lemma_rendered_entry_is_found(entries: Seq<(Seq<char>, Seq<char>)>, j: int)
    requires
        all_fit(entries),
        0 <= j < entries.len(),
        forall|i: int| j < i < entries.len() ==> (#[trigger] entries[i]).0 != entries[j].0,
    ensures
        is_well_formed(render(entries)),
        parsed(render(entries)).contains_key(entries[j].0),
        parsed(render(entries))[entries[j].0] == entries[j].1,
{
    let lines = lines_of(render(entries));
    lemma_lines_of_render(entries);
    assert forall|i: int| 0 <= i < lines.len() implies has_delimiter(#[trigger] lines[i])
        && key_of(lines[i]) == entries[i].0 && value_of(lines[i]) == entries[i].1 by {
        assert(fits_on_a_line(entries[i].0, entries[i].1));
        lemma_entry_line_splits(entries[i].0, entries[i].1);
    }
    lemma_last_line_decides(lines, j);
}

/// Round trip: in a file rendered from entries with distinct keys, each
/// of which fits on a line, loading succeeds and a lookup of any of the
/// keys yields exactly its value, whatever the fallback.
pub proof fn law_round_trip(
    entries: Seq<(Seq<char>, Seq<char>)>,
    i: int,
    fallback: Option<Seq<char>>,
)
    requires
        all_fit(entries),
        forall|a: int, b: int|
            0 <= a < b < entries.len() ==> (#[trigger] entries[a]).0 != (#[trigger] entries[b]).0,
        0 <= i < entries.len(),
    ensures
        is_well_formed(render(entries)),
        resolve(parsed(render(entries)), entries[i].0, fallback) == Some(entries[i].1),
{
    lemma_rendered_entry_is_found(entries, i);
}

/// Overwrite: where two lines of a text define one key, a lookup of the
/// key yields the value of the later line, provided no line after it
/// defines the key once more.
pub proof fn law_overwrite(text: Seq<char>, i: int, j: int, fallback: Option<Seq<char>>)
    requires
        0 <= i < j < lines_of(text).len(),
        has_delimiter(lines_of(text)[i]),
        has_delimiter(lines_of(text)[j]),
        key_of(lines_of(text)[i]) == key_of(lines_of(text)[j]),
        forall|k: int|
            j < k < lines_of(text).len() && has_delimiter(#[trigger] lines_of(text)[k]) ==> key_of(
                lines_of(text)[k],
            ) != key_of(lines_of(text)[j]),
    ensures
        resolve(parsed(text), key_of(lines_of(text)[i]), fallback) == Some(
            value_of(lines_of(text)[j]),
        ),
{
    law_last_line_decides(text, j, fallback);
}

/// An empty configuration, such as the one loaded when no file is
/// designated, defers every lookup to the fallback.
pub proof fn law_empty_configuration_defers(key: Seq<char>, fallback: Option<Seq<char>>)
    ensures
        resolve(Map::<Seq<char>, Seq<char>>::empty(), key, fallback) == fallback,
        parsed(Seq::<char>::empty()) == Map::<Seq<char>, Seq<char>>::empty(),
{
}

} // verus!
