//! Character classes, case and trimming.
use crate::text::chars_of;
use crate::text::string_of;
use vstd::prelude::*;

verus! {

// ─── ASCII classes ───────────────────────────────────────────────────────────

/// An ASCII character.
pub open spec fn is_ascii(c: char) -> bool {
    c <= '\u{7f}'
}

/// An ASCII digit.
pub open spec fn is_digit(c: char) -> bool {
    '0' <= c && c <= '9'
}

/// An ASCII letter.
pub open spec fn is_letter(c: char) -> bool {
    ('a' <= c && c <= 'z') || ('A' <= c && c <= 'Z')
}

/// An ASCII hexadecimal digit.
pub open spec fn is_hex(c: char) -> bool {
    is_digit(c) || ('a' <= c && c <= 'f') || ('A' <= c && c <= 'F')
}

/// Whether `c` is an ASCII digit.
pub fn digit(c: char) -> (r: bool)
    ensures
        r == is_digit(c),
{
    '0' <= c && c <= '9'
}

/// Whether `c` is an ASCII letter.
pub fn letter(c: char) -> (r: bool)
    ensures
        r == is_letter(c),
{
    ('a' <= c && c <= 'z') || ('A' <= c && c <= 'Z')
}

/// Whether `c` is an ASCII hexadecimal digit.
pub fn hex(c: char) -> (r: bool)
    ensures
        r == is_hex(c),
{
    digit(c) || ('a' <= c && c <= 'f') || ('A' <= c && c <= 'F')
}

// ─── Unicode classes ─────────────────────────────────────────────────────────

/// What `char::is_alphanumeric` says of a character beyond ASCII.
pub uninterp spec fn unicode_alphanumeric(c: char) -> bool;

/// What `char::is_whitespace` says of a character beyond ASCII.
pub uninterp spec fn unicode_whitespace(c: char) -> bool;

/// A letter or a number.
pub open spec fn is_alphanumeric(c: char) -> bool {
    if is_ascii(c) {
        is_digit(c) || is_letter(c)
    } else {
        unicode_alphanumeric(c)
    }
}

/// A white space character.
pub open spec fn is_space(c: char) -> bool {
    if is_ascii(c) {
        c == ' ' || ('\u{9}' <= c && c <= '\u{d}')
    } else {
        unicode_whitespace(c)
    }
}

/// `char::is_alphanumeric`: the Unicode letters and numbers. Among ASCII
/// characters these are the letters and the digits.
pub assume_specification[ char::is_alphanumeric ](c: char) -> (r: bool)
    ensures
        is_ascii(c) ==> r == (is_digit(c) || is_letter(c)),
        !is_ascii(c) ==> r == unicode_alphanumeric(c),
;

/// `char::is_whitespace`: the Unicode property `White_Space`. Among ASCII
/// characters these are the space and the characters from tab to carriage
/// return.
pub assume_specification[ char::is_whitespace ](c: char) -> (r: bool)
    ensures
        is_ascii(c) ==> r == (c == ' ' || ('\u{9}' <= c && c <= '\u{d}')),
        !is_ascii(c) ==> r == unicode_whitespace(c),
;

// ─── Case ────────────────────────────────────────────────────────────────────

/// What `str::to_lowercase` makes of a text that is not ASCII.
pub uninterp spec fn unicode_lowercase(s: Seq<char>) -> Seq<char>;

/// What `str::to_uppercase` makes of a text that is not ASCII.
pub uninterp spec fn unicode_uppercase(s: Seq<char>) -> Seq<char>;

/// An ASCII letter in lower case; any other character as it is.
pub open spec fn ascii_lower_char(c: char) -> char {
    if 'A' <= c && c <= 'Z' {
        (c as int + 32) as char
    } else {
        c
    }
}

/// An ASCII letter in upper case; any other character as it is.
pub open spec fn ascii_upper_char(c: char) -> char {
    if 'a' <= c && c <= 'z' {
        (c as int - 32) as char
    } else {
        c
    }
}

/// A text with its ASCII letters in lower case.
pub open spec fn ascii_lower(s: Seq<char>) -> Seq<char> {
    s.map_values(|c: char| ascii_lower_char(c))
}

/// A text with its ASCII letters in upper case.
pub open spec fn ascii_upper(s: Seq<char>) -> Seq<char> {
    s.map_values(|c: char| ascii_upper_char(c))
}

/// A text in lower case.
pub open spec fn lowercase(s: Seq<char>) -> Seq<char> {
    if vstd::utf8::is_ascii_chars(s) {
        ascii_lower(s)
    } else {
        unicode_lowercase(s)
    }
}

/// A text in upper case.
pub open spec fn uppercase(s: Seq<char>) -> Seq<char> {
    if vstd::utf8::is_ascii_chars(s) {
        ascii_upper(s)
    } else {
        unicode_uppercase(s)
    }
}

/// `str::to_lowercase`: the Unicode lower case of a text. Of an ASCII text, its
/// letters in lower case.
pub assume_specification[ str::to_lowercase ](s: &str) -> (r: std::string::String)
    ensures
        vstd::utf8::is_ascii_chars(s@) ==> r@ == ascii_lower(s@),
        !vstd::utf8::is_ascii_chars(s@) ==> r@ == unicode_lowercase(s@),
;

/// `str::to_uppercase`: the Unicode upper case of a text. Of an ASCII text, its
/// letters in upper case.
pub assume_specification[ str::to_uppercase ](s: &str) -> (r: std::string::String)
    ensures
        vstd::utf8::is_ascii_chars(s@) ==> r@ == ascii_upper(s@),
        !vstd::utf8::is_ascii_chars(s@) ==> r@ == unicode_uppercase(s@),
;

/// Two texts are equal when ASCII letters count the same in either case.
pub open spec fn same_ignoring_case(a: Seq<char>, b: Seq<char>) -> bool {
    ascii_lower(a) == ascii_lower(b)
}

fn lower_char(c: char) -> (r: char)
    ensures
        r == ascii_lower_char(c),
{
    if 'A' <= c && c <= 'Z' {
        (c as u8 + 32) as char
    } else {
        c
    }
}

/// `s` with its ASCII letters in lower case.
pub fn to_ascii_lower(s: &str) -> (r: String)
    ensures
        r@ == ascii_lower(s@),
{
    let cs = chars_of(s);
    let mut out = String::new();
    let mut i: usize = 0;
    while i < cs.len()
        invariant
            i <= cs@.len(),
            out@ == ascii_lower(cs@.take(i as int)),
        decreases cs@.len() - i,
    {
        out.push(lower_char(cs[i]));
        i += 1;
        assert(out@ =~= ascii_lower(cs@.take(i as int)));
    }
    assert(cs@.take(i as int) =~= cs@);
    out
}

/// Whether `a` and `b` are equal when ASCII letters count the same in either
/// case.
pub fn eq_ignoring_case(a: &str, b: &str) -> (r: bool)
    ensures
        r == same_ignoring_case(a@, b@),
{
    to_ascii_lower(a) == to_ascii_lower(b)
}

// ─── Trimming ────────────────────────────────────────────────────────────────

/// `s` without the leading characters in `p`.
pub open spec fn trim_start(s: Seq<char>, p: spec_fn(char) -> bool) -> Seq<char>
    decreases s.len(),
{
    if s.len() > 0 && p(s[0]) {
        trim_start(s.drop_first(), p)
    } else {
        s
    }
}

/// `s` without the trailing characters in `p`.
pub open spec fn trim_end(s: Seq<char>, p: spec_fn(char) -> bool) -> Seq<char>
    decreases s.len(),
{
    if s.len() > 0 && p(s.last()) {
        trim_end(s.drop_last(), p)
    } else {
        s
    }
}

/// `s` without leading and trailing white space.
pub open spec fn trimmed(s: Seq<char>) -> Seq<char> {
    trim_end(trim_start(s, |c: char| is_space(c)), |c: char| is_space(c))
}

/// `s` without leading and trailing slashes.
pub open spec fn without_slashes(s: Seq<char>) -> Seq<char> {
    trim_end(trim_start(s, |c: char| c == '/'), |c: char| c == '/')
}

/// `s` without trailing slashes.
pub open spec fn without_end_slashes(s: Seq<char>) -> Seq<char> {
    trim_end(s, |c: char| c == '/')
}

/// White space after a text is trimmed off.
pub proof fn lemma_trim_end_spaces(s: Seq<char>, ws: Seq<char>)
    requires
        s.len() > 0,
        !is_space(s.last()),
        forall|i: int| 0 <= i < ws.len() ==> is_space(#[trigger] ws[i]),
    ensures
        trim_end(s + ws, |c: char| is_space(c)) == s,
    decreases ws.len(),
{
    let p = |c: char| is_space(c);
    let t = s + ws;
    if ws.len() == 0 {
        assert(t =~= s);
    } else {
        assert(t.last() == ws[ws.len() - 1]);
        assert(t.drop_last() =~= s + ws.drop_last());
        lemma_trim_end_spaces(s, ws.drop_last());
    }
}

/// `s` without leading and trailing white space.
pub fn trim(s: &str) -> (r: String)
    ensures
        r@ == trimmed(s@),
{
    let cs = chars_of(s);
    let ghost p = |c: char| is_space(c);
    let mut from: usize = 0;
    assert(cs@.skip(0) =~= cs@);
    while from < cs.len() && cs[from].is_whitespace()
        invariant
            from <= cs@.len(),
            p == |c: char| is_space(c),
            trim_start(cs@, p) == trim_start(cs@.skip(from as int), p),
        decreases cs@.len() - from,
    {
        assert(cs@.skip(from as int).drop_first() =~= cs@.skip(from + 1));
        from += 1;
    }
    let ghost t = cs@.skip(from as int);
    assert(trim_start(t, p) == t);
    let mut to: usize = cs.len();
    assert(t.take(t.len() as int) =~= t);
    while from < to && cs[to - 1].is_whitespace()
        invariant
            from <= to <= cs@.len(),
            t == cs@.skip(from as int),
            p == |c: char| is_space(c),
            trim_end(t, p) == trim_end(t.take(to - from), p),
        decreases to,
    {
        assert(t.take(to - from).drop_last() =~= t.take(to - 1 - from));
        to -= 1;
    }
    assert(t.take(to - from) =~= cs@.subrange(from as int, to as int));
    string_of(&cs, from, to)
}

/// `s` without leading and trailing slashes.
pub fn trim_slashes(s: &str) -> (r: String)
    ensures
        r@ == without_slashes(s@),
{
    let cs = chars_of(s);
    let ghost p = |c: char| c == '/';
    let mut from: usize = 0;
    assert(cs@.skip(0) =~= cs@);
    while from < cs.len() && cs[from] == '/'
        invariant
            from <= cs@.len(),
            p == |c: char| c == '/',
            trim_start(cs@, p) == trim_start(cs@.skip(from as int), p),
        decreases cs@.len() - from,
    {
        assert(cs@.skip(from as int).drop_first() =~= cs@.skip(from + 1));
        from += 1;
    }
    let ghost t = cs@.skip(from as int);
    assert(trim_start(t, p) == t);
    let rest = string_of(&cs, from, cs.len());
    assert(rest@ =~= t);
    trim_end_slashes(rest.as_str())
}

/// `s` without trailing slashes.
pub fn trim_end_slashes(s: &str) -> (r: String)
    ensures
        r@ == without_end_slashes(s@),
{
    let cs = chars_of(s);
    let ghost p = |c: char| c == '/';
    let mut to: usize = cs.len();
    assert(cs@.take(cs@.len() as int) =~= cs@);
    while 0 < to && cs[to - 1] == '/'
        invariant
            to <= cs@.len(),
            p == |c: char| c == '/',
            trim_end(cs@, p) == trim_end(cs@.take(to as int), p),
        decreases to,
    {
        assert(cs@.take(to as int).drop_last() =~= cs@.take(to - 1));
        to -= 1;
    }
    assert(cs@.take(to as int) =~= cs@.subrange(0, to as int));
    string_of(&cs, 0, to)
}

/// Capital ASCII letters become small ones in lower case, small ones capital ones in upper
/// case; anything else stays.
pub proof fn law_case_of_characters(c: char)
    ensures
        'A' <= c <= 'Z' ==> ascii_lower_char(c) as int == c as int + 32,
        !('A' <= c <= 'Z') ==> ascii_lower_char(c) == c,
        'a' <= c <= 'z' ==> ascii_upper_char(c) as int == c as int - 32,
        !('a' <= c <= 'z') ==> ascii_upper_char(c) == c,
{
}

/// Trimming drops the white space around a text and nothing of the text itself.
pub proof fn law_trimmed(before: Seq<char>, s: Seq<char>, after: Seq<char>)
    requires
        s.len() > 0,
        !is_space(s[0]),
        !is_space(s.last()),
        forall|i: int| 0 <= i < before.len() ==> is_space(#[trigger] before[i]),
        forall|i: int| 0 <= i < after.len() ==> is_space(#[trigger] after[i]),
    ensures
        trimmed(before + s + after) == s,
        is_space(' '),
        is_space('\t'),
        is_space('\n'),
        is_space('\r'),
    decreases before.len(),
{
    let p = |c: char| is_space(c);
    let t = before + s + after;
    if before.len() > 0 {
        assert(t[0] == before[0]);
        assert(t.drop_first() =~= before.drop_first() + s + after);
        assert forall|i: int| 0 <= i < before.drop_first().len() implies is_space(
            #[trigger] before.drop_first()[i],
        ) by {
            assert(before.drop_first()[i] == before[i + 1]);
        }
        law_trimmed(before.drop_first(), s, after);
    } else {
        assert(t =~= s + after);
        assert(t[0] == s[0]);
        lemma_trim_end_spaces(s, after);
    }
}

/// A text of white space is trimmed to nothing.
pub proof fn law_white_space_is_trimmed(s: Seq<char>)
    requires
        forall|i: int| 0 <= i < s.len() ==> is_space(#[trigger] s[i]),
    ensures
        trimmed(s).len() == 0,
    decreases s.len(),
{
    if s.len() > 0 {
        assert(is_space(s[0]));
        let t = s.drop_first();
        assert forall|i: int| 0 <= i < t.len() implies is_space(#[trigger] t[i]) by {
            assert(t[i] == s[i + 1]);
        }
        law_white_space_is_trimmed(t);
    }
}

} // verus!
