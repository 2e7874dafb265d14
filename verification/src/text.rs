//! Character-level transformations: value escaping, XML entity escaping,
//! Unicode whitespace and decimal numbers.
use vstd::prelude::*;
use vstd::string::*;
use vstd::std_specs::iter::IteratorSpec;

verus! {

broadcast use vstd::string::group_string_axioms;

/// Appends one character to a string: std's `String::push`, documented to append `c`
/// to the end of the string.  Its panic on a length beyond what memory can hold is not
/// stated.
#[verifier::external_body]
pub(crate) fn push_char(s: &mut String, c: char)
    ensures
        final(s)@ == old(s)@.push(c),
{
    s.push(c);
}

/// How one character of a value is written in grex output.
pub open spec fn escape_char(c: char) -> Seq<char> {
    if c == '\\' {
        seq!['\\', '\\']
    } else if c == '\n' {
        seq!['\\', 'n']
    } else if c == '\t' {
        seq!['\\', 't']
    } else {
        seq![c]
    }
}

/// A value as it is written after the ` = ` of a grex line.
pub open spec fn escaped(s: Seq<char>) -> Seq<char>
    decreases s.len(),
{
    if s.len() == 0 {
        seq![]
    } else {
        escape_char(s[0]) + escaped(s.skip(1))
    }
}

/// What the character after a backslash stands for.
pub open spec fn unescape_pair(c: char) -> Seq<char> {
    if c == '\\' {
        seq!['\\']
    } else if c == 'n' {
        seq!['\n']
    } else if c == 't' {
        seq!['\t']
    } else {
        seq!['\\', c]
    }
}

/// The value that a grex line's right-hand side denotes.  An unknown escape keeps its
/// backslash, and a trailing backslash stands for itself.
pub open spec fn unescaped(s: Seq<char>) -> Seq<char>
    decreases s.len(),
{
    if s.len() == 0 {
        seq![]
    } else if s[0] == '\\' {
        if s.len() == 1 {
            seq!['\\']
        } else {
            unescape_pair(s[1]) + unescaped(s.skip(2))
        }
    } else {
        seq![s[0]] + unescaped(s.skip(1))
    }
}

/// Escapes backslash, newline and tab so that a value fits on one grex line.
pub fn escape_value(s: &str) -> (res: String)
    ensures
        res@ == escaped(s@),
{
    let mut result = String::new();
    let mut chars = s.chars();
    loop
        invariant
            escaped(s@) == result@ + escaped(chars.remaining()),
            chars.decrease() is Some,
        decreases chars.decrease()->0,
    {
        let ghost before = chars.remaining();
        match chars.next() {
            Some(ch) => {
                assert(before.skip(1) =~= chars.remaining());
                if ch == '\\' {
                    push_char(&mut result, '\\');
                    push_char(&mut result, '\\');
                } else if ch == '\n' {
                    push_char(&mut result, '\\');
                    push_char(&mut result, 'n');
                } else if ch == '\t' {
                    push_char(&mut result, '\\');
                    push_char(&mut result, 't');
                } else {
                    push_char(&mut result, ch);
                }
                assert(escaped(before) == escape_char(ch) + escaped(chars.remaining()));
            },
            None => {
                assert(result@ + escaped(chars.remaining()) =~= result@);
                return result;
            },
        }
    }
}

/// Reverses `escape_value`: `\\`, `\n` and `\t` become backslash, newline and tab; any
/// other escape, and a trailing backslash, are kept as written.
pub fn unescape_value(s: &str) -> (res: String)
    ensures
        res@ == unescaped(s@),
{
    let mut result = String::new();
    let mut chars = s.chars();
    // whether the previous character was a backslash that starts an escape
    let mut pending = false;
    loop
        invariant
            unescaped(s@) == result@ + unescaped(
                if pending { seq!['\\'] + chars.remaining() } else { chars.remaining() },
            ),
            chars.decrease() is Some,
        decreases chars.decrease()->0,
    {
        let ghost before = chars.remaining();
        match chars.next() {
            Some(ch) => {
                assert(before.skip(1) =~= chars.remaining());
                if pending {
                    assert((seq!['\\'] + before).skip(2) =~= chars.remaining());
                    if ch == '\\' {
                        push_char(&mut result, '\\');
                    } else if ch == 'n' {
                        push_char(&mut result, '\n');
                    } else if ch == 't' {
                        push_char(&mut result, '\t');
                    } else {
                        push_char(&mut result, '\\');
                        push_char(&mut result, ch);
                    }
                    pending = false;
                } else if ch == '\\' {
                    pending = true;
                    assert(seq!['\\'] + chars.remaining() =~= before);
                } else {
                    push_char(&mut result, ch);
                }
            },
            None => {
                if pending {
                    push_char(&mut result, '\\');
                    assert(unescaped(seq!['\\'] + chars.remaining()) =~= seq!['\\']);
                }
                assert(result@ + unescaped(seq![]) =~= result@);
                return result;
            },
        }
    }
}

/// How one character is written in XML character data.
pub open spec fn xml_escape_char(c: char) -> Seq<char> {
    if c == '&' {
        seq!['&', 'a', 'm', 'p', ';']
    } else if c == '<' {
        seq!['&', 'l', 't', ';']
    } else if c == '>' {
        seq!['&', 'g', 't', ';']
    } else if c == '"' {
        seq!['&', 'q', 'u', 'o', 't', ';']
    } else if c == '\'' {
        seq!['&', 'a', 'p', 'o', 's', ';']
    } else {
        seq![c]
    }
}

/// A string with the five XML special characters written as entity references.
pub open spec fn xml_escaped(s: Seq<char>) -> Seq<char>
    decreases s.len(),
{
    if s.len() == 0 {
        seq![]
    } else {
        xml_escape_char(s[0]) + xml_escaped(s.skip(1))
    }
}

/// Writes `&`, `<`, `>`, `"` and `'` as the predefined XML entities.
pub fn escape_xml_entities(s: &str) -> (res: String)
    ensures
        res@ == xml_escaped(s@),
{
    let mut result = String::new();
    let mut chars = s.chars();
    loop
        invariant
            xml_escaped(s@) == result@ + xml_escaped(chars.remaining()),
            chars.decrease() is Some,
        decreases chars.decrease()->0,
    {
        let ghost before = chars.remaining();
        match chars.next() {
            Some(ch) => {
                assert(before.skip(1) =~= chars.remaining());
                if ch == '&' {
                    proof { reveal_strlit("&amp;"); }
                    result.append("&amp;");
                } else if ch == '<' {
                    proof { reveal_strlit("&lt;"); }
                    result.append("&lt;");
                } else if ch == '>' {
                    proof { reveal_strlit("&gt;"); }
                    result.append("&gt;");
                } else if ch == '"' {
                    proof { reveal_strlit("&quot;"); }
                    result.append("&quot;");
                } else if ch == '\'' {
                    proof { reveal_strlit("&apos;"); }
                    result.append("&apos;");
                } else {
                    push_char(&mut result, ch);
                }
                assert(xml_escaped(before) == xml_escape_char(ch) + xml_escaped(chars.remaining()));
            },
            None => {
                assert(result@ + xml_escaped(chars.remaining()) =~= result@);
                return result;
            },
        }
    }
}

/// Unescaping an escaped value gives the value back.
pub proof fn lemma_unescape_escape(s: Seq<char>)
    ensures
        unescaped(escaped(s)) == s,
    decreases s.len(),
{
    if s.len() > 0 {
        let rest = escaped(s.skip(1));
        lemma_unescape_escape(s.skip(1));
        let c = s[0];
        let e = escape_char(c) + rest;
        if c == '\\' || c == '\n' || c == '\t' {
            assert(e.skip(2) =~= rest);
        } else {
            assert(e.skip(1) =~= rest);
        }
        assert(seq![c] + s.skip(1) =~= s);
    }
}

/// An escaped value holds no newline and no tab, so it never breaks a grex line.
pub proof fn lemma_escaped_one_line(s: Seq<char>)
    ensures
        forall|i: int| 0 <= i < escaped(s).len() ==> escaped(s)[i] != '\n' && escaped(s)[i] != '\t',
    decreases s.len(),
{
    if s.len() > 0 {
        lemma_escaped_one_line(s.skip(1));
        let e = escape_char(s[0]);
        let r = escaped(s.skip(1));
        assert forall|i: int| 0 <= i < escaped(s).len() implies escaped(s)[i] != '\n'
            && escaped(s)[i] != '\t' by {
            if i >= e.len() {
                assert(escaped(s)[i] == r[i - e.len()]);
            }
        }
    }
}

/// XML-escaped text holds none of `<`, `>`, `"` and `'`, so it can stand as character
/// data or inside an attribute value.
pub proof fn lemma_xml_escaped_no_markup(s: Seq<char>)
    ensures
        forall|i: int|
            0 <= i < xml_escaped(s).len() ==> {
                let c = #[trigger] xml_escaped(s)[i];
                c != '<' && c != '>' && c != '"' && c != '\''
            },
    decreases s.len(),
{
    if s.len() > 0 {
        lemma_xml_escaped_no_markup(s.skip(1));
        let e = xml_escape_char(s[0]);
        let r = xml_escaped(s.skip(1));
        assert forall|i: int| 0 <= i < xml_escaped(s).len() implies {
            let c = #[trigger] xml_escaped(s)[i];
            c != '<' && c != '>' && c != '"' && c != '\''
        } by {
            if i >= e.len() {
                assert(xml_escaped(s)[i] == r[i - e.len()]);
            } else {
                assert(xml_escaped(s)[i] == e[i]);
            }
        }
    }
}

/// How many characters of `s` escaping writes as two: backslash, newline and tab.
pub open spec fn escape_count(s: Seq<char>) -> nat
    decreases s.len(),
{
    if s.len() == 0 {
        0
    } else {
        (if s[0] == '\\' || s[0] == '\n' || s[0] == '\t' { 1nat } else { 0nat }) + escape_count(s.skip(1))
    }
}

/// An escaped value is one character longer than the value for each backslash,
/// newline and tab in it.
pub proof fn lemma_escaped_len(s: Seq<char>)
    ensures
        escaped(s).len() == s.len() + escape_count(s),
    decreases s.len(),
{
    if s.len() > 0 {
        lemma_escaped_len(s.skip(1));
    }
}

/// Reads XML text in one pass from left to right: each of `&amp;`, `&lt;`, `&gt;`,
/// `&quot;` and `&apos;` stands for its character, anything else for itself.
pub open spec fn xml_unescaped(t: Seq<char>) -> Seq<char>
    decreases t.len(),
{
    if t.len() == 0 {
        seq![]
    } else if t.len() >= 5 && t[0] == '&' && t[1] == 'a' && t[2] == 'm' && t[3] == 'p' && t[4] == ';' {
        seq!['&'] + xml_unescaped(t.skip(5))
    } else if t.len() >= 4 && t[0] == '&' && t[1] == 'l' && t[2] == 't' && t[3] == ';' {
        seq!['<'] + xml_unescaped(t.skip(4))
    } else if t.len() >= 4 && t[0] == '&' && t[1] == 'g' && t[2] == 't' && t[3] == ';' {
        seq!['>'] + xml_unescaped(t.skip(4))
    } else if t.len() >= 6 && t[0] == '&' && t[1] == 'q' && t[2] == 'u' && t[3] == 'o' && t[4] == 't' && t[5]
        == ';' {
        seq!['"'] + xml_unescaped(t.skip(6))
    } else if t.len() >= 6 && t[0] == '&' && t[1] == 'a' && t[2] == 'p' && t[3] == 'o' && t[4] == 's' && t[5]
        == ';' {
        seq!['\''] + xml_unescaped(t.skip(6))
    } else {
        seq![t[0]] + xml_unescaped(t.skip(1))
    }
}

/// Reading XML-escaped text in one pass gives the text back.
pub proof fn lemma_xml_unescape_escape(s: Seq<char>)
    ensures
        xml_unescaped(xml_escaped(s)) == s,
    decreases s.len(),
{
    if s.len() == 0 {
        assert(xml_escaped(s) =~= Seq::<char>::empty());
    } else {
        lemma_xml_unescape_escape(s.skip(1));
        let e = xml_escape_char(s[0]);
        let r = xml_escaped(s.skip(1));
        let t = e + r;
        assert(xml_escaped(s) == t);
        assert(t.skip(e.len() as int) =~= r);
        assert forall|i: int| 0 <= i < e.len() implies t[i] == e[i] by {}
        assert(xml_unescaped(t) == seq![s[0]] + xml_unescaped(r));
        assert(seq![s[0]] + s.skip(1) =~= s);
    }
}

/// Whether a character has the Unicode `White_Space` property.
pub open spec fn is_whitespace_char(c: char) -> bool {
    ||| ('\u{9}' <= c && c <= '\u{d}')
    ||| c == ' '
    ||| c == '\u{85}'
    ||| c == '\u{a0}'
    ||| c == '\u{1680}'
    ||| ('\u{2000}' <= c && c <= '\u{200a}')
    ||| c == '\u{2028}'
    ||| c == '\u{2029}'
    ||| c == '\u{202f}'
    ||| c == '\u{205f}'
    ||| c == '\u{3000}'
}

/// Whether a string is empty once surrounding whitespace is trimmed.
pub open spec fn is_blank(s: Seq<char>) -> bool {
    forall|i: int| 0 <= i < s.len() ==> is_whitespace_char(#[trigger] s[i])
}

/// Whether `c` has the Unicode `White_Space` property.
pub fn is_whitespace(c: char) -> (res: bool)
    ensures
        res == is_whitespace_char(c),
{
    ('\u{9}' <= c && c <= '\u{d}') || c == ' ' || c == '\u{85}' || c == '\u{a0}' || c == '\u{1680}'
        || ('\u{2000}' <= c && c <= '\u{200a}') || c == '\u{2028}' || c == '\u{2029}' || c
        == '\u{202f}' || c == '\u{205f}' || c == '\u{3000}'
}

/// Whether `s` consists of whitespace only (the empty string included).
pub fn is_blank_str(s: &str) -> (res: bool)
    ensures
        res == is_blank(s@),
{
    let mut chars = s.chars();
    loop
        invariant
            is_blank(s@) == is_blank(chars.remaining()),
            chars.decrease() is Some,
        decreases chars.decrease()->0,
    {
        let ghost before = chars.remaining();
        match chars.next() {
            Some(ch) => {
                assert(before.skip(1) =~= chars.remaining());
                if !is_whitespace(ch) {
                    assert(!is_whitespace_char(before[0]));
                    return false;
                }
                assert(is_blank(before) == is_blank(chars.remaining())) by {
                    if is_blank(chars.remaining()) {
                        assert forall|i: int| 0 <= i < before.len() implies is_whitespace_char(
                            #[trigger] before[i],
                        ) by {
                            if i > 0 {
                                assert(before[i] == chars.remaining()[i - 1]);
                            }
                        }
                    }
                    if is_blank(before) {
                        assert forall|i: int| 0 <= i < chars.remaining().len() implies is_whitespace_char(
                            #[trigger] chars.remaining()[i],
                        ) by {
                            assert(chars.remaining()[i] == before[i + 1]);
                        }
                    }
                }
            },
            None => {
                return true;
            },
        }
    }
}

/// The decimal digit character for `d < 10`.
pub open spec fn digit_char(d: nat) -> char {
    (48 + d) as char
}

/// The decimal numeral of `n`, without leading zeros.
pub open spec fn decimal(n: nat) -> Seq<char>
    decreases n,
{
    if n < 10 {
        seq![digit_char(n)]
    } else {
        decimal(n / 10).push(digit_char(n % 10))
    }
}

/// Appends the decimal numeral of `n` to `s`.
pub fn push_decimal(s: &mut String, n: usize)
    ensures
        final(s)@ == old(s)@ + decimal(n as nat),
    decreases n,
{
    if n >= 10 {
        push_decimal(s, n / 10);
    }
    let d = (n % 10) as u8;
    let c = (48u8 + d) as char;
    assert(c == digit_char((n % 10) as nat));
    push_char(s, c);
    assert(s@ =~= old(s)@ + decimal(n as nat));
}

/// Whether a character is an ASCII decimal digit.
pub open spec fn is_digit(c: char) -> bool {
    '0' <= c && c <= '9'
}

/// The value of a decimal digit character.
pub open spec fn digit_value(c: char) -> nat {
    (c as nat - 48) as nat
}

/// Why a string is not a number (the kinds that `usize`'s `FromStr` reports).
#[derive(Debug, Clone, Copy, PartialEq, Eq, Structural)]
pub enum IntErrorKind {
    /// The string is empty.
    Empty,
    /// A character is not a digit (a lone sign counts as one).
    InvalidDigit,
    /// The number does not fit in `usize`.
    PosOverflow,
}

/// Reads the digits of `d` after the value `acc` accumulated so far, stopping at the
/// first character that is not a digit or makes the number too large.
pub open spec fn scan_digits(d: Seq<char>, acc: nat) -> Result<nat, IntErrorKind>
    decreases d.len(),
{
    if d.len() == 0 {
        Ok(acc)
    } else if !is_digit(d[0]) {
        Err(IntErrorKind::InvalidDigit)
    } else if acc * 10 + digit_value(d[0]) > usize::MAX {
        Err(IntErrorKind::PosOverflow)
    } else {
        scan_digits(d.skip(1), acc * 10 + digit_value(d[0]))
    }
}

/// A string read as a `usize`: an optional `+` and decimal digits.
pub open spec fn parse_usize_spec(s: Seq<char>) -> Result<nat, IntErrorKind> {
    if s.len() == 0 {
        Err(IntErrorKind::Empty)
    } else if s.len() == 1 && (s[0] == '+' || s[0] == '-') {
        Err(IntErrorKind::InvalidDigit)
    } else if s[0] == '+' {
        scan_digits(s.skip(1), 0)
    } else {
        scan_digits(s, 0)
    }
}

proof fn lemma_digit_char(d: nat)
    requires
        d < 10,
    ensures
        is_digit(digit_char(d)),
        digit_value(digit_char(d)) == d,
        (digit_char(d) as u32) < 128,
{
}

/// A decimal numeral holds only digits, at least one.
pub proof fn lemma_decimal_digits(n: nat)
    ensures
        decimal(n).len() >= 1,
        forall|i: int| 0 <= i < decimal(n).len() ==> is_digit(#[trigger] decimal(n)[i]),
    decreases n,
{
    lemma_digit_char(n % 10);
    if n >= 10 {
        lemma_decimal_digits(n / 10);
    } else {
        lemma_digit_char(n);
    }
}

proof fn lemma_scan_decimal(n: nat, t: Seq<char>)
    requires
        n <= usize::MAX,
    ensures
        scan_digits(decimal(n) + t, 0) == scan_digits(t, n),
    decreases n,
{
    lemma_digit_char(n % 10);
    if n < 10 {
        lemma_digit_char(n);
        assert((decimal(n) + t).skip(1) =~= t);
    } else {
        let d = digit_char(n % 10);
        lemma_scan_decimal(n / 10, seq![d] + t);
        assert(decimal(n) + t =~= decimal(n / 10) + (seq![d] + t));
        assert((seq![d] + t).skip(1) =~= t);
        assert((n / 10) * 10 + n % 10 == n);
    }
}

/// The decimal numeral of a `usize` reads back as that number.
pub proof fn lemma_parse_decimal(n: usize)
    ensures
        parse_usize_spec(decimal(n as nat)) == Ok::<nat, IntErrorKind>(n as nat),
{
    lemma_scan_decimal(n as nat, seq![]);
    assert(decimal(n as nat) + seq![] =~= decimal(n as nat));
    lemma_decimal_digits(n as nat);
    assert(is_digit(decimal(n as nat)[0]));
}

/// Reads a decimal `usize` from the characters `s[from..to]`.
pub fn parse_usize(s: &Vec<char>, from: usize, to: usize) -> (res: Result<usize, IntErrorKind>)
    requires
        from <= to <= s.len(),
    ensures
        match (res, parse_usize_spec(s@.subrange(from as int, to as int))) {
            (Ok(v), Ok(w)) => v == w,
            (Err(e), Err(f)) => e == f,
            _ => false,
        },
{
    let ghost t = s@.subrange(from as int, to as int);
    if from == to {
        return Err(IntErrorKind::Empty);
    }
    if to - from == 1 && (s[from] == '+' || s[from] == '-') {
        return Err(IntErrorKind::InvalidDigit);
    }
    let mut i = if s[from] == '+' { from + 1 } else { from };
    let ghost digits = s@.subrange(i as int, to as int);
    assert(parse_usize_spec(t) == scan_digits(digits, 0)) by {
        if s[from as int] == '+' {
            assert(t.skip(1) =~= digits);
        } else {
            assert(t =~= digits);
        }
    }
    let mut acc: usize = 0;
    while i < to
        invariant
            from <= i <= to <= s.len(),
            parse_usize_spec(s@.subrange(from as int, to as int)) == scan_digits(digits, 0),
            scan_digits(digits, 0) == scan_digits(s@.subrange(i as int, to as int), acc as nat),
        decreases to - i,
    {
        let c = s[i];
        let ghost rest = s@.subrange(i as int, to as int);
        assert(rest[0] == c);
        if !('0' <= c && c <= '9') {
            return Err(IntErrorKind::InvalidDigit);
        }
        let d = (c as u32 - 48) as usize;
        assert(d == digit_value(c));
        if acc > (usize::MAX - d) / 10 {
            assert(acc * 10 + d > usize::MAX) by (nonlinear_arith)
                requires
                    acc > (usize::MAX - d) / 10,
                    d <= 9,
            ;
            return Err(IntErrorKind::PosOverflow);
        }
        assert(acc * 10 + d <= usize::MAX) by (nonlinear_arith)
            requires
                acc <= (usize::MAX - d) / 10,
                d <= 9,
        ;
        acc = acc * 10 + d;
        assert(rest.skip(1) =~= s@.subrange(i + 1, to as int));
        i = i + 1;
    }
    assert(s@.subrange(i as int, to as int).len() == 0);
    Ok(acc)
}

/// The characters of `s`, in order.
pub fn chars_of(s: &str) -> (v: Vec<char>)
    ensures
        v@ == s@,
{
    let mut v: Vec<char> = Vec::new();
    let mut chars = s.chars();
    loop
        invariant
            s@ == v@ + chars.remaining(),
            chars.decrease() is Some,
        decreases chars.decrease()->0,
    {
        let ghost before = chars.remaining();
        match chars.next() {
            Some(ch) => {
                v.push(ch);
                assert(before =~= seq![ch] + chars.remaining());
                assert(s@ =~= v@ + chars.remaining());
            },
            None => {
                assert(s@ =~= v@);
                return v;
            },
        }
    }
}

/// Appends the characters `v[from..to]` to `s`.
pub fn push_range(s: &mut String, v: &Vec<char>, from: usize, to: usize)
    requires
        from <= to <= v.len(),
    ensures
        final(s)@ == old(s)@ + v@.subrange(from as int, to as int),
{
    let mut i = from;
    while i < to
        invariant
            from <= i <= to <= v.len(),
            s@ == old(s)@ + v@.subrange(from as int, i as int),
        decreases to - i,
    {
        push_char(s, v[i]);
        assert(v@.subrange(from as int, i + 1) =~= v@.subrange(from as int, i as int).push(v@[i as int]));
        i = i + 1;
    }
}

/// The string made of the characters `v[from..to]`.
pub fn string_of(v: &Vec<char>, from: usize, to: usize) -> (s: String)
    requires
        from <= to <= v.len(),
    ensures
        s@ == v@.subrange(from as int, to as int),
{
    let mut s = String::new();
    push_range(&mut s, v, from, to);
    assert(s@ =~= v@.subrange(from as int, to as int));
    s
}

/// The position of the first `c` in `s` at or after position `j`.
pub open spec fn first_index_from(s: Seq<char>, c: char, j: int) -> Option<int>
    decreases s.len() - j,
{
    if j < 0 || j >= s.len() {
        None
    } else if s[j] == c {
        Some(j)
    } else {
        first_index_from(s, c, j + 1)
    }
}

/// A found position lies in the searched range and holds `c`, and nothing before it
/// in that range does.
pub proof fn lemma_first_index_from_bounds(s: Seq<char>, c: char, j: int)
    requires
        0 <= j,
    ensures
        first_index_from(s, c, j) matches Some(i) ==> j <= i < s.len() && s[i] == c && forall|k: int|
            j <= k < i ==> s[k] != c,
        first_index_from(s, c, j) is None ==> forall|k: int| j <= k < s.len() ==> s[k] != c,
    decreases s.len() - j,
{
    if 0 <= j < s.len() && s[j] != c {
        lemma_first_index_from_bounds(s, c, j + 1);
    }
}

/// The position of the first `c` in `s`.
pub open spec fn first_index(s: Seq<char>, c: char) -> Option<int> {
    first_index_from(s, c, 0)
}

/// Finds the first `c` in `v[from..to]`; returns `to` when there is none.
pub fn find_char(v: &Vec<char>, c: char, from: usize, to: usize) -> (p: usize)
    requires
        from <= to <= v.len(),
    ensures
        from <= p <= to,
        first_index(v@.subrange(from as int, to as int), c) == if p < to {
            Some(p - from)
        } else {
            None::<int>
        },
{
    let ghost t = v@.subrange(from as int, to as int);
    let mut i = from;
    while i < to
        invariant
            from <= i <= to <= v.len(),
            t == v@.subrange(from as int, to as int),
            first_index(t, c) == first_index_from(t, c, i - from),
        decreases to - i,
    {
        if v[i] == c {
            assert(t[i - from] == c);
            return i;
        }
        i = i + 1;
    }
    i
}

} // verus!
