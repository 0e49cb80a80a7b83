//! The text form of a store: one line for each entry, the key, `'='` and the
//! raw text of the value.

use vstd::prelude::*;
use crate::model::{distinct_keys, lemma_key_index_is, put};
use crate::text::string_of;
use crate::value::{lemma_raw_text_reads_back, parse_value, raw_text, KvEnum, Scalar};

verus! {

/// Where `c` first occurs in `s`; the length of `s` where it does not.
pub open spec fn first_index(s: Seq<char>, c: char) -> int
    decreases s.len(),
{
    if s.len() == 0 {
        0
    } else if s[0] == c {
        0
    } else {
        1 + first_index(s.drop_first(), c)
    }
}

/// How many times `c` occurs in `s`.
pub open spec fn occurrences(s: Seq<char>, c: char) -> nat
    decreases s.len(),
{
    if s.len() == 0 {
        0
    } else {
        occurrences(s.drop_last(), c) + if s.last() == c {
            1nat
        } else {
            0nat
        }
    }
}

/// `c` does not occur in `s`.
pub open spec fn free_of(s: Seq<char>, c: char) -> bool {
    forall|i: int| 0 <= i < s.len() ==> #[trigger] s[i] != c
}

/// The line without the carriage return at its end, if it has one.
pub open spec fn strip_cr(line: Seq<char>) -> Seq<char> {
    if line.len() > 0 && line.last() == '\r' {
        line.drop_last()
    } else {
        line
    }
}

/// The lines of a text. A line ends at a line feed, which is not part of it,
/// and neither is a carriage return directly before that line feed. What
/// follows the last line feed is a line too, unless it is empty.
pub open spec fn split_lines(text: Seq<char>) -> Seq<Seq<char>>
    decreases text.len(),
{
    if text.len() == 0 {
        Seq::empty()
    } else {
        let end = first_index(text, '\n');
        if 0 <= end < text.len() {
            seq![strip_cr(text.subrange(0, end))] + split_lines(
                text.subrange(end + 1, text.len() as int),
            )
        } else {
            seq![text]
        }
    }
}

/// The entry that a line stands for: the key before its one `'='` and the
/// value of the raw text behind it. A line with no `'='`, or with more than
/// one, stands for nothing.
pub open spec fn parse_line(line: Seq<char>) -> Option<(Seq<char>, Scalar)> {
    if occurrences(line, '=') == 1 {
        let at = first_index(line, '=');
        Some((line.subrange(0, at), parse_value(line.subrange(at + 1, line.len() as int))))
    } else {
        None
    }
}

/// The entries after the lines are read in turn on top of `entries`, each
/// binding its key; nothing where one of the lines stands for no entry.
pub open spec fn load_lines(entries: Seq<(Seq<char>, Scalar)>, lines: Seq<Seq<char>>) -> Option<
    Seq<(Seq<char>, Scalar)>,
>
    decreases lines.len(),
{
    if lines.len() == 0 {
        Some(entries)
    } else {
        match parse_line(lines[0]) {
            Some((key, value)) => load_lines(put(entries, key, value), lines.drop_first()),
            None => None,
        }
    }
}

/// The entries that a text stands for; nothing where a line of it is
/// malformed.
pub open spec fn parse_text(text: Seq<char>) -> Option<Seq<(Seq<char>, Scalar)>> {
    load_lines(Seq::empty(), split_lines(text))
}

/// The line written for one entry, with the line feed that ends it.
pub open spec fn encode_entry(key: Seq<char>, value: Scalar) -> Seq<char> {
    key + seq!['='] + raw_text(value) + seq!['\n']
}

/// The text written for the entries: their lines, one after the other.
pub open spec fn encode_entries(entries: Seq<(Seq<char>, Scalar)>) -> Seq<char>
    decreases entries.len(),
{
    if entries.len() == 0 {
        Seq::empty()
    } else {
        encode_entry(entries[0].0, entries[0].1) + encode_entries(entries.drop_first())
    }
}

/// A text value that is read back from its own line as the same text: it
/// holds no `'='` and no line feed, does not end in a carriage return, and
/// spells neither a truth value nor a number that fits `usize`.
pub open spec fn plain_text(s: Seq<char>) -> bool {
    &&& free_of(s, '=')
    &&& free_of(s, '\n')
    &&& !(s.len() > 0 && s.last() == '\r')
    &&& parse_value(s) == Scalar::Str(s)
}

/// A key that is read back from its own line as the same key: it holds no
/// `'='` and no line feed.
pub open spec fn plain_key(key: Seq<char>) -> bool {
    free_of(key, '=') && free_of(key, '\n')
}

/// An entry that is read back from its own line as the same entry: the key
/// is plain, and so is the value where it is a text.
pub open spec fn plain_entry(key: Seq<char>, value: Scalar) -> bool {
    &&& plain_key(key)
    &&& value matches Scalar::Str(s) ==> plain_text(s)
}

/// `first_index` is the least index at which the character stands.
pub proof fn lemma_first_index(s: Seq<char>, c: char)
    ensures
        0 <= first_index(s, c) <= s.len(),
        first_index(s, c) < s.len() ==> s[first_index(s, c)] == c,
        forall|j: int| 0 <= j < first_index(s, c) ==> #[trigger] s[j] != c,
    decreases s.len(),
{
    if s.len() > 0 && s[0] != c {
        let rest = s.drop_first();
        lemma_first_index(rest, c);
        assert forall|j: int| 0 <= j < first_index(s, c) implies #[trigger] s[j] != c by {
            if j > 0 {
                assert(s[j] == rest[j - 1]);
            }
        }
    }
}

/// An index at which the character stands, and before which it does not,
/// is the `first_index`.
pub proof fn lemma_first_index_is(s: Seq<char>, c: char, at: int)
    requires
        0 <= at <= s.len(),
        at < s.len() ==> s[at] == c,
        forall|j: int| 0 <= j < at ==> #[trigger] s[j] != c,
    ensures
        first_index(s, c) == at,
{
    lemma_first_index(s, c);
    let found = first_index(s, c);
    if found < at {
        assert(s[found] != c);
    }
}

/// A character occurs zero times exactly where the text is free of it.
pub proof fn lemma_occurrences_zero(s: Seq<char>, c: char)
    ensures
        occurrences(s, c) == 0 <==> free_of(s, c),
    decreases s.len(),
{
    if s.len() > 0 {
        let front = s.drop_last();
        lemma_occurrences_zero(front, c);
        if free_of(s, c) {
            assert(s.last() == s[s.len() - 1]);
            assert forall|i: int| 0 <= i < front.len() implies #[trigger] front[i] != c by {
                assert(s[i] != c);
            }
        }
        if occurrences(s, c) == 0 {
            assert forall|i: int| 0 <= i < s.len() implies #[trigger] s[i] != c by {
                if i < front.len() {
                    assert(front[i] != c);
                }
            }
        }
    }
}

/// Occurrences add up over concatenation.
pub proof fn lemma_occurrences_concat(a: Seq<char>, b: Seq<char>, c: char)
    ensures
        occurrences(a + b, c) == occurrences(a, c) + occurrences(b, c),
    decreases b.len(),
{
    if b.len() == 0 {
        assert(a + b == a);
    } else {
        lemma_occurrences_concat(a, b.drop_last(), c);
        assert((a + b).drop_last() == a + b.drop_last());
    }
}

/// A key and a raw text, both free of `'='`, are read back from the line
/// that joins them.
pub proof fn lemma_parse_joined(key: Seq<char>, raw: Seq<char>)
    requires
        free_of(key, '='),
        free_of(raw, '='),
    ensures
        parse_line(key + seq!['='] + raw) == Some((key, parse_value(raw))),
{
    let line = key + seq!['='] + raw;
    lemma_occurrences_concat(key + seq!['='], raw, '=');
    lemma_occurrences_concat(key, seq!['='], '=');
    lemma_occurrences_zero(key, '=');
    lemma_occurrences_zero(raw, '=');
    assert(seq!['='].drop_last() == Seq::<char>::empty());
    assert(occurrences(seq!['='], '=') == 1) by {
        assert(occurrences(seq!['='].drop_last(), '=') == 0);
    }
    lemma_first_index_is(line, '=', key.len() as int);
    assert(line.subrange(0, key.len() as int) == key);
    assert(line.subrange(key.len() as int + 1, line.len() as int) == raw);
}

/// The first line of a text is what stands before its first line feed.
pub proof fn lemma_split_first(line: Seq<char>, rest: Seq<char>)
    requires
        free_of(line, '\n'),
    ensures
        split_lines(line + seq!['\n'] + rest) == seq![strip_cr(line)] + split_lines(rest),
{
    let text = line + seq!['\n'] + rest;
    lemma_first_index_is(text, '\n', line.len() as int);
    assert(text.subrange(0, line.len() as int) == line);
    assert(text.subrange(line.len() as int + 1, text.len() as int) == rest);
}

/// The line of a plain entry is read back as that entry.
pub proof fn lemma_entry_reads_back(key: Seq<char>, value: Scalar, rest: Seq<char>)
    requires
        plain_entry(key, value),
        value.representable(),
    ensures
        split_lines(encode_entry(key, value) + rest) == seq![key + seq!['='] + raw_text(value)]
            + split_lines(rest),
        parse_line(key + seq!['='] + raw_text(value)) == Some((key, value)),
{
    let raw = raw_text(value);
    let line = key + seq!['='] + raw;
    if !(value is Str) {
        lemma_raw_text_reads_back(value);
        assert forall|i: int| 0 <= i < raw.len() implies #[trigger] raw[i] != '=' && raw[i]
            != '\n' && raw[i] != '\r' by {
            let c = raw_text(value)[i];
            assert(('0' <= c && c <= '9') || ('a' <= c && c <= 'z'));
        }
        if raw.len() > 0 {
            assert(raw.last() == raw[raw.len() - 1]);
        }
    }
    assert(free_of(raw, '='));
    assert(free_of(raw, '\n'));
    assert(parse_value(raw) == value);
    lemma_parse_joined(key, raw);
    assert forall|i: int| 0 <= i < line.len() implies #[trigger] line[i] != '\n' by {
        if i < key.len() {
            assert(line[i] == key[i]);
        } else if i > key.len() {
            assert(line[i] == raw[i - key.len() - 1]);
        }
    }
    assert(line.last() != '\r') by {
        if raw.len() > 0 {
            assert(line.last() == raw.last());
        } else {
            assert(line.last() == '=');
        }
    }
    assert(encode_entry(key, value) + rest == line + seq!['\n'] + rest);
    lemma_split_first(line, rest);
}

/// Plain entries with distinct keys, none of them already bound, are read
/// back from their text in the order in which they were written.
pub proof fn lemma_load_encoded(
    before: Seq<(Seq<char>, Scalar)>,
    entries: Seq<(Seq<char>, Scalar)>,
)
    requires
        distinct_keys(before + entries),
        forall|i: int|
            0 <= i < entries.len() ==> plain_entry((#[trigger] entries[i]).0, entries[i].1)
                && entries[i].1.representable(),
    ensures
        load_lines(before, split_lines(encode_entries(entries))) == Some(before + entries),
    decreases entries.len(),
{
    if entries.len() == 0 {
        assert(before + entries == before);
    } else {
        let (key, value) = entries[0];
        let later = entries.drop_first();
        let all = before + entries;
        lemma_entry_reads_back(key, value, encode_entries(later));
        let lines = split_lines(encode_entries(entries));
        assert(lines[0] == key + seq!['='] + raw_text(value));
        assert(lines.drop_first() == split_lines(encode_entries(later)));
        assert forall|j: int| 0 <= j < before.len() implies (#[trigger] before[j]).0 != key by {
            assert(all[j].0 != all[before.len() as int].0);
        }
        lemma_key_index_is(before, key, before.len() as int);
        assert(put(before, key, value) == before.push((key, value)));
        assert(before.push((key, value)) + later == all);
        assert forall|i: int| 0 <= i < later.len() implies plain_entry(
            (#[trigger] later[i]).0,
            later[i].1,
        ) && later[i].1.representable() by {
            assert(later[i] == entries[i + 1]);
        }
        lemma_load_encoded(before.push((key, value)), later);
    }
}

/// Reading fails exactly where one of the lines stands for no entry.
pub proof fn lemma_load_fails(entries: Seq<(Seq<char>, Scalar)>, lines: Seq<Seq<char>>)
    ensures
        load_lines(entries, lines) is None <==> exists|i: int|
            0 <= i < lines.len() && parse_line(#[trigger] lines[i]) is None,
    decreases lines.len(),
{
    if lines.len() > 0 {
        let later = lines.drop_first();
        match parse_line(lines[0]) {
            Some((key, value)) => {
                lemma_load_fails(put(entries, key, value), later);
                if load_lines(entries, lines) is None {
                    let i = choose|i: int| 0 <= i < later.len() && parse_line(#[trigger] later[i]) is None;
                    assert(later[i] == lines[i + 1]);
                }
                if exists|i: int| 0 <= i < lines.len() && parse_line(#[trigger] lines[i]) is None {
                    let i = choose|i: int| 0 <= i < lines.len() && parse_line(#[trigger] lines[i]) is None;
                    assert(later[i - 1] == lines[i]);
                }
            },
            None => {},
        }
    }
}

/// Where `c` first stands in `chars[from..to]`, counted from the start of
/// `chars`; `to` where it does not occur there.
pub(crate) fn find(chars: &Vec<char>, from: usize, to: usize, c: char) -> (at: usize)
    requires
        from <= to <= chars.len(),
    ensures
        from <= at <= to,
        at - from == first_index(chars@.subrange(from as int, to as int), c),
{
    let mut at: usize = from;
    while at < to && chars[at] != c
        invariant
            from <= at <= to <= chars.len(),
            forall|j: int| from <= j < at ==> chars@[j] != c,
        decreases to - at,
    {
        at = at + 1;
    }
    proof {
        lemma_first_index_is(chars@.subrange(from as int, to as int), c, at - from);
    }
    at
}

/// How many times `c` stands in `chars[from..to]`.
pub(crate) fn count(chars: &Vec<char>, from: usize, to: usize, c: char) -> (n: usize)
    requires
        from <= to <= chars.len(),
    ensures
        n == occurrences(chars@.subrange(from as int, to as int), c),
{
    let mut n: usize = 0;
    let mut i: usize = from;
    while i < to
        invariant
            from <= i <= to <= chars.len(),
            n <= i - from,
            n == occurrences(chars@.subrange(from as int, i as int), c),
        decreases to - i,
    {
        assert(chars@.subrange(from as int, i + 1).drop_last() == chars@.subrange(
            from as int,
            i as int,
        ));
        if chars[i] == c {
            n = n + 1;
        }
        i = i + 1;
    }
    n
}

/// Reads the line `chars[from..to]` as an entry; `None` where the line
/// does not hold exactly one `'='`.
pub(crate) fn read_entry(chars: &Vec<char>, from: usize, to: usize) -> (entry: Option<(String, KvEnum)>)
    requires
        from <= to <= chars.len(),
    ensures
        match parse_line(chars@.subrange(from as int, to as int)) {
            Some((key, value)) => entry matches Some(read) && read.0@ == key && read.1@ == value,
            None => entry is None,
        },
{
    let ghost line = chars@.subrange(from as int, to as int);
    if count(chars, from, to, '=') != 1 {
        return None;
    }
    let at = find(chars, from, to, '=');
    proof {
        lemma_occurrences_zero(line, '=');
        if at == to {
            lemma_first_index(line, '=');
        }
        assert(line.subrange(0, at - from) == chars@.subrange(from as int, at as int));
        assert(line.subrange(at - from + 1, line.len() as int) == chars@.subrange(
            at + 1,
            to as int,
        ));
    }
    let key = string_of(chars, from, at);
    let value = KvEnum::from_chars(chars, at + 1, to);
    Some((key, value))
}

} // verus!
