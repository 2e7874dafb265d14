//! Grex lines: splitting input into lines, and reading one `xpath = value` line.
use vstd::prelude::*;
use crate::text::{
    chars_of, first_index_from, escaped, find_char, first_index, lemma_first_index_from_bounds, lemma_unescape_escape,
    string_of, unescape_value, unescaped,
};

verus! {

/// A line without the carriage return that ended it, if any.
pub open spec fn strip_cr(l: Seq<char>) -> Seq<char> {
    if l.len() > 0 && l.last() == '\r' {
        l.drop_last()
    } else {
        l
    }
}

/// The lines of a text: split at each `\n`, with a `\r` just before the `\n` removed; a
/// final line ending does not start another line.
pub open spec fn lines_of(s: Seq<char>) -> Seq<Seq<char>>
    decreases s.len(),
{
    if s.len() == 0 {
        seq![]
    } else {
        match first_index(s, '\n') {
            None => seq![s],
            Some(i) => {
                proof {
                    lemma_first_index_from_bounds(s, '\n', 0);
                }
                seq![strip_cr(s.take(i))] + lines_of(s.skip(i + 1))
            },
        }
    }
}

/// The characters of a vector of strings.
pub open spec fn strings_model(v: Seq<String>) -> Seq<Seq<char>> {
    v.map_values(|l: String| l@)
}

/// The text made of the lines, each followed by `\n`.
pub open spec fn joined(lines: Seq<Seq<char>>) -> Seq<char>
    decreases lines.len(),
{
    if lines.len() == 0 {
        seq![]
    } else {
        lines[0] + seq!['\n'] + joined(lines.skip(1))
    }
}

/// Whether a line can stand in a text and be read back: no `\n` in it, no `\r` at its end.
pub open spec fn is_plain_line(l: Seq<char>) -> bool {
    &&& forall|i: int| 0 <= i < l.len() ==> l[i] != '\n'
    &&& (l.len() > 0 ==> l.last() != '\r')
}

proof fn lemma_first_index_prefix(l: Seq<char>, rest: Seq<char>, j: int)
    requires
        0 <= j <= l.len(),
        forall|i: int| 0 <= i < l.len() ==> l[i] != '\n',
    ensures
        first_index_from(l + seq!['\n'] + rest, '\n', j) == Some(l.len() as int),
    decreases l.len() - j,
{
    if j < l.len() {
        lemma_first_index_prefix(l, rest, j + 1);
    }
}

/// Writing lines one per `\n`-ended line and splitting the text gives the lines back.
pub proof fn lemma_lines_of_joined(lines: Seq<Seq<char>>)
    requires
        forall|k: int| 0 <= k < lines.len() ==> is_plain_line(#[trigger] lines[k]),
    ensures
        lines_of(joined(lines)) == lines,
    decreases lines.len(),
{
    if lines.len() > 0 {
        let l = lines[0];
        let rest = joined(lines.skip(1));
        let t = l + seq!['\n'] + rest;
        assert(is_plain_line(lines[0]));
        lemma_first_index_prefix(l, rest, 0);
        assert(t.take(l.len() as int) =~= l);
        assert(t.skip(l.len() + 1int) =~= rest);
        assert forall|k: int| 0 <= k < lines.skip(1).len() implies is_plain_line(#[trigger] lines.skip(1)[k]) by {
            assert(lines.skip(1)[k] == lines[k + 1]);
        }
        lemma_lines_of_joined(lines.skip(1));
        assert(lines =~= seq![l] + lines.skip(1));
    }
}

/// Splits a text into lines, as `str::lines` does.
pub fn split_lines(input: &str) -> (lines: Vec<String>)
    ensures
        strings_model(lines@) == lines_of(input@),
{
    let chars = chars_of(input);
    let len = chars.len();
    let mut lines: Vec<String> = Vec::new();
    let mut start: usize = 0;
    assert(chars@.subrange(0, len as int) =~= input@);
    assert(strings_model(lines@) + lines_of(input@) =~= lines_of(input@));
    while start < len
        invariant
            start <= len == chars.len(),
            chars@ == input@,
            lines_of(input@) == strings_model(lines@) + lines_of(chars@.subrange(start as int, len as int)),
        decreases len - start,
    {
        let ghost rest = chars@.subrange(start as int, len as int);
        let ghost prev = strings_model(lines@);
        let p = find_char(&chars, '\n', start, len);
        let line;
        let next;
        if p < len {
            let mut end = p;
            if p > start && chars[p - 1] == '\r' {
                end = p - 1;
            }
            line = string_of(&chars, start, end);
            assert(line@ == strip_cr(rest.take(p - start))) by {
                assert(rest.take(p - start) =~= chars@.subrange(start as int, p as int));
                if p > start && chars@[p - 1] == '\r' {
                    assert(chars@.subrange(start as int, p as int).drop_last() =~= chars@.subrange(
                        start as int,
                        end as int,
                    ));
                }
            }
            assert(rest.skip(p - start + 1) =~= chars@.subrange(p + 1, len as int));
            next = p + 1;
        } else {
            line = string_of(&chars, start, len);
            next = len;
            assert(chars@.subrange(len as int, len as int) =~= seq![]);
        }
        assert(lines_of(rest) == seq![line@] + lines_of(chars@.subrange(next as int, len as int)));
        lines.push(line);
        assert(strings_model(lines@) =~= prev.push(line@));
        start = next;
        assert(lines_of(input@) =~= strings_model(lines@) + lines_of(chars@.subrange(start as int, len as int)));
    }
    assert(chars@.subrange(start as int, len as int) =~= seq![]);
    assert(strings_model(lines@) + seq![] =~= strings_model(lines@));
    lines
}

/// Whether `s` holds the separator ` = ` at position `j`.
pub open spec fn separator_at(s: Seq<char>, j: int) -> bool {
    0 <= j && j + 3 <= s.len() && s[j] == ' ' && s[j + 1] == '=' && s[j + 2] == ' '
}

/// The position of the first separator ` = ` in `s` at or after position `j`.
pub open spec fn separator_from(s: Seq<char>, j: int) -> Option<int>
    decreases s.len() - j,
{
    if j < 0 || j + 3 > s.len() {
        None
    } else if separator_at(s, j) {
        Some(j)
    } else {
        separator_from(s, j + 1)
    }
}

/// A grex line read as its xpath (before the first ` = `) and its unescaped value (after
/// it); `None` when the line has no ` = `.
pub open spec fn grex_line_parts(line: Seq<char>) -> Option<(Seq<char>, Seq<char>)> {
    match separator_from(line, 0) {
        Some(j) => Some((line.take(j), unescaped(line.skip(j + 3)))),
        None => None,
    }
}

/// The grex line that states `value` at `xpath`.
pub open spec fn grex_line(xpath: Seq<char>, value: Seq<char>) -> Seq<char> {
    xpath + seq![' ', '=', ' '] + escaped(value)
}

/// Splits a grex line at its first ` = ` into the xpath and the unescaped value.
pub fn parse_grex_line(line: &str) -> (res: Option<(String, String)>)
    ensures
        match (res, grex_line_parts(line@)) {
            (Some((x, v)), Some((sx, sv))) => x@ == sx && v@ == sv,
            (None, None) => true,
            _ => false,
        },
{
    let chars = chars_of(line);
    let len = chars.len();
    let mut j: usize = 0;
    while len >= 3 && j <= len - 3
        invariant
            chars@ == line@,
            len == chars.len(),
            separator_from(line@, 0) == separator_from(line@, j as int),
        decreases len - j,
    {
        if chars[j] == ' ' && chars[j + 1] == '=' && chars[j + 2] == ' ' {
            let xpath = string_of(&chars, 0, j);
            let raw = string_of(&chars, j + 3, len);
            assert(xpath@ =~= line@.take(j as int));
            assert(raw@ =~= line@.skip(j + 3));
            let value = unescape_value(raw.as_str());
            return Some((xpath, value));
        }
        j = j + 1;
    }
    None
}

/// A line made of an xpath without spaces, ` = ` and an escaped value reads back as
/// that xpath and value.
pub proof fn lemma_grex_line_roundtrip(xpath: Seq<char>, value: Seq<char>)
    requires
        forall|i: int| 0 <= i < xpath.len() ==> xpath[i] != ' ',
    ensures
        grex_line_parts(grex_line(xpath, value)) == Some((xpath, value)),
{
    let l = grex_line(xpath, value);
    assert forall|j: int| 0 <= j < xpath.len() implies !separator_at(l, j) by {
        assert(l[j] == xpath[j]);
    }
    lemma_separator_skip(l, 0, xpath.len() as int);
    assert(separator_at(l, xpath.len() as int));
    assert(l.take(xpath.len() as int) =~= xpath);
    assert(l.skip(xpath.len() + 3int) =~= escaped(value));
    lemma_unescape_escape(value);
}

proof fn lemma_separator_skip(s: Seq<char>, j: int, k: int)
    requires
        0 <= j <= k,
        k + 3 <= s.len(),
        forall|i: int| j <= i < k ==> !separator_at(s, i),
    ensures
        separator_from(s, j) == separator_from(s, k),
    decreases k - j,
{
    if j < k {
        lemma_separator_skip(s, j + 1, k);
    }
}

} // verus!
