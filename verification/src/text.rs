//! Text as a sequence of characters: order, search, splitting, joining and lines.
use vstd::prelude::*;
use vstd::string::StringExecFns;

verus! {

/// `String::push` appends one character.
pub assume_specification[ String::push ](s: &mut String, c: char)
    ensures
        final(s)@ == old(s)@.push(c),
;

// ─── Characters and strings ──────────────────────────────────────────────────

/// The characters of `s`, in order.
pub fn chars_of(s: &str) -> (r: Vec<char>)
    ensures
        r@ == s@,
{
    let mut out: Vec<char> = Vec::new();
    for c in it: s.chars()
        invariant
            out@ == it.seq().take(it.index() as int),
            it.seq() == s@,
    {
        out.push(c);
        assert(out@ =~= it.seq().take(it.index() + 1));
    }
    out
}

/// The characters `from..to` of `cs` as a string.
pub fn string_of(cs: &[char], from: usize, to: usize) -> (r: String)
    requires
        from <= to <= cs@.len(),
    ensures
        r@ == cs@.subrange(from as int, to as int),
{
    let mut out = String::new();
    let mut i: usize = from;
    while i < to
        invariant
            from <= i <= to <= cs@.len(),
            out@ == cs@.subrange(from as int, i as int),
        decreases to - i,
    {
        out.push(cs[i]);
        i += 1;
        assert(out@ =~= cs@.subrange(from as int, i as int));
    }
    out
}

/// Whether two string slices hold the same characters.
pub fn same_text(a: &str, b: &str) -> (r: bool)
    ensures
        r == (a@ == b@),
{
    a.to_owned() == b.to_owned()
}

/// The number of bytes of `s` in UTF-8.
pub open spec fn byte_len(s: Seq<char>) -> nat {
    vstd::utf8::encode_utf8(s).len()
}

/// The number of bytes of `s` in UTF-8.
pub fn byte_length(s: &str) -> (r: usize)
    ensures
        r == byte_len(s@),
{
    s.as_bytes().len()
}

// ─── Order ───────────────────────────────────────────────────────────────────

/// The lexicographic order of text by scalar value, which is the order that
/// `str` and `String` have.
pub open spec fn text_lt(a: Seq<char>, b: Seq<char>) -> bool
    decreases a.len(),
{
    if b.len() == 0 {
        false
    } else if a.len() == 0 {
        true
    } else if a[0] != b[0] {
        (a[0] as int) < (b[0] as int)
    } else {
        text_lt(a.drop_first(), b.drop_first())
    }
}

pub proof fn lemma_text_lt_irreflexive(a: Seq<char>)
    ensures
        !text_lt(a, a),
    decreases a.len(),
{
    if a.len() > 0 {
        lemma_text_lt_irreflexive(a.drop_first());
    }
}

pub proof fn lemma_text_lt_transitive(a: Seq<char>, b: Seq<char>, c: Seq<char>)
    requires
        text_lt(a, b),
        text_lt(b, c),
    ensures
        text_lt(a, c),
    decreases a.len(),
{
    if a.len() > 0 && a[0] == b[0] && b[0] == c[0] {
        lemma_text_lt_transitive(a.drop_first(), b.drop_first(), c.drop_first());
    }
}

pub proof fn lemma_text_lt_total(a: Seq<char>, b: Seq<char>)
    ensures
        a == b || text_lt(a, b) || text_lt(b, a),
    decreases a.len(),
{
    if a.len() == 0 || b.len() == 0 {
        if a.len() == 0 && b.len() == 0 {
            assert(a =~= b);
        }
    } else if a[0] == b[0] {
        lemma_text_lt_total(a.drop_first(), b.drop_first());
        if a.drop_first() == b.drop_first() {
            assert(a =~= seq![a[0]] + a.drop_first());
            assert(b =~= seq![b[0]] + b.drop_first());
        }
    }
}

proof fn lemma_text_lt_skip(a: Seq<char>, b: Seq<char>, n: nat)
    requires
        n <= a.len(),
        n <= b.len(),
        a.take(n as int) == b.take(n as int),
    ensures
        text_lt(a, b) == text_lt(a.skip(n as int), b.skip(n as int)),
    decreases n,
{
    if n == 0 {
        assert(a.skip(0) =~= a);
        assert(b.skip(0) =~= b);
    } else {
        assert(a[0] == a.take(n as int)[0]);
        assert(b[0] == b.take(n as int)[0]);
        let a1 = a.drop_first();
        let b1 = b.drop_first();
        assert(a1.take(n - 1) =~= a.take(n as int).drop_first());
        assert(b1.take(n - 1) =~= b.take(n as int).drop_first());
        lemma_text_lt_skip(a1, b1, (n - 1) as nat);
        assert(a1.skip(n - 1) =~= a.skip(n as int));
        assert(b1.skip(n - 1) =~= b.skip(n as int));
    }
}

/// Whether `a` comes before `b`.
pub fn text_before(a: &str, b: &str) -> (r: bool)
    ensures
        r == text_lt(a@, b@),
{
    let x = chars_of(a);
    let y = chars_of(b);
    let mut i: usize = 0;
    while i < x.len() && i < y.len() && x[i] == y[i]
        invariant
            i <= x@.len(),
            i <= y@.len(),
            x@.take(i as int) == y@.take(i as int),
        decreases x@.len() - i,
    {
        i += 1;
        assert(x@.take(i as int) =~= x@.take(i - 1).push(x@[i - 1]));
        assert(y@.take(i as int) =~= y@.take(i - 1).push(y@[i - 1]));
    }
    proof {
        lemma_text_lt_skip(x@, y@, i as nat);
        assert(x@.skip(i as int).len() == x@.len() - i);
        if i < x@.len() && i < y@.len() {
            assert(x@.skip(i as int)[0] == x@[i as int]);
            assert(y@.skip(i as int)[0] == y@[i as int]);
        }
    }
    if i >= y.len() {
        false
    } else if i >= x.len() {
        true
    } else {
        x[i] < y[i]
    }
}

// ─── Search ──────────────────────────────────────────────────────────────────

/// The position of the first `c` in `s`, or the length of `s` if there is none.
pub open spec fn find_char(s: Seq<char>, c: char) -> int
    decreases s.len(),
{
    if s.len() == 0 || s[0] == c {
        0
    } else {
        1 + find_char(s.drop_first(), c)
    }
}

/// What stands before the first `c` in `s`: all of `s` if there is none.
pub open spec fn before_char(s: Seq<char>, c: char) -> Seq<char> {
    s.take(find_char(s, c))
}

/// What stands after the first `c` in `s`: nothing if there is none.
pub open spec fn after_char(s: Seq<char>, c: char) -> Seq<char> {
    if find_char(s, c) < s.len() {
        s.skip(find_char(s, c) + 1)
    } else {
        Seq::empty()
    }
}

pub proof fn lemma_find_char(s: Seq<char>, c: char)
    ensures
        0 <= find_char(s, c) <= s.len(),
        find_char(s, c) < s.len() ==> s[find_char(s, c)] == c,
        forall|k: int| 0 <= k < find_char(s, c) ==> s[k] != c,
    decreases s.len(),
{
    if s.len() > 0 && s[0] != c {
        let t = s.drop_first();
        lemma_find_char(t, c);
        assert forall|k: int| 0 <= k < find_char(s, c) implies s[k] != c by {
            if k > 0 {
                assert(t[k - 1] == s[k]);
            }
        }
    }
}

pub proof fn lemma_find_char_is(s: Seq<char>, c: char, i: int)
    requires
        0 <= i <= s.len(),
        i < s.len() ==> s[i] == c,
        forall|k: int| 0 <= k < i ==> s[k] != c,
    ensures
        find_char(s, c) == i,
{
    lemma_find_char(s, c);
}

/// The position of the first `c` at or after `from`, or the length of `cs`.
fn index_of(cs: &Vec<char>, from: usize, c: char) -> (r: usize)
    requires
        from <= cs@.len(),
    ensures
        from <= r <= cs@.len(),
        r - from == find_char(cs@.skip(from as int), c),
        r < cs@.len() ==> cs@[r as int] == c,
{
    let mut i: usize = from;
    while i < cs.len() && cs[i] != c
        invariant
            from <= i <= cs@.len(),
            forall|k: int| from <= k < i ==> cs@[k] != c,
        decreases cs@.len() - i,
    {
        i += 1;
    }
    proof {
        let t = cs@.skip(from as int);
        assert forall|k: int| 0 <= k < i - from implies t[k] != c by {
            assert(t[k] == cs@[from + k]);
        }
        lemma_find_char_is(t, c, i - from);
    }
    i
}

/// Splits `s` at its first `c` into what stands before and after it.
pub fn split_once(s: &str, c: char) -> (r: (String, Option<String>))
    ensures
        r.0@ == before_char(s@, c),
        match r.1 {
            Some(rest) => find_char(s@, c) < s@.len() && rest@ == after_char(s@, c),
            None => find_char(s@, c) == s@.len(),
        },
{
    let cs = chars_of(s);
    let i = index_of(&cs, 0, c);
    assert(cs@.skip(0) =~= cs@);
    let head = string_of(&cs, 0, i);
    if i < cs.len() {
        let tail = string_of(&cs, i + 1, cs.len());
        assert(tail@ =~= after_char(s@, c));
        (head, Some(tail))
    } else {
        (head, None)
    }
}

/// `needle` stands in `hay` at position `i`.
pub open spec fn occurs_at(hay: Seq<char>, needle: Seq<char>, i: int) -> bool {
    &&& 0 <= i
    &&& i + needle.len() <= hay.len()
    &&& hay.subrange(i, i + needle.len()) == needle
}

/// `needle` stands somewhere in `hay`.
pub open spec fn contains_text(hay: Seq<char>, needle: Seq<char>) -> bool {
    exists|i: int| occurs_at(hay, needle, i)
}

/// Whether `needle` stands in `hay` at position `i`.
pub fn chars_occur_at(hay: &Vec<char>, needle: &Vec<char>, i: usize) -> (r: bool)
    requires
        i <= hay@.len(),
    ensures
        r == occurs_at(hay@, needle@, i as int),
{
    if needle.len() > hay.len() - i {
        return false;
    }
    let mut k: usize = 0;
    while k < needle.len()
        invariant
            k <= needle@.len(),
            i + needle@.len() <= hay@.len(),
            hay@.len() == hay.len(),
            forall|j: int| 0 <= j < k ==> hay@[i + j] == needle@[j],
        decreases needle@.len() - k,
    {
        if hay[i + k] != needle[k] {
            assert(hay@.subrange(i as int, i + needle@.len())[k as int] == hay@[i + k]);
            return false;
        }
        k += 1;
    }
    assert(hay@.subrange(i as int, i + needle@.len()) =~= needle@);
    true
}

/// Whether `needle` stands somewhere in `hay`.
pub fn has_text(hay: &str, needle: &str) -> (r: bool)
    ensures
        r == contains_text(hay@, needle@),
{
    let h = chars_of(hay);
    let n = chars_of(needle);
    let mut i: usize = 0;
    while i < h.len()
        invariant
            i <= h@.len(),
            h@ == hay@,
            n@ == needle@,
            forall|k: int| 0 <= k < i ==> !occurs_at(h@, n@, k),
        decreases h@.len() - i,
    {
        if chars_occur_at(&h, &n, i) {
            return true;
        }
        i += 1;
    }
    let last = chars_occur_at(&h, &n, i);
    proof {
        if contains_text(hay@, needle@) {
            let k = choose|k: int| occurs_at(h@, n@, k);
            assert(k <= i);
            assert(k == i);
        }
    }
    last
}

/// `prefix` stands at the start of `s`.
pub open spec fn starts_with(s: Seq<char>, prefix: Seq<char>) -> bool {
    occurs_at(s, prefix, 0)
}

/// `suffix` stands at the end of `s`.
pub open spec fn ends_with(s: Seq<char>, suffix: Seq<char>) -> bool {
    occurs_at(s, suffix, s.len() - suffix.len())
}

/// Whether `prefix` stands at the start of `s`.
pub fn has_prefix(s: &str, prefix: &str) -> (r: bool)
    ensures
        r == starts_with(s@, prefix@),
{
    chars_occur_at(&chars_of(s), &chars_of(prefix), 0)
}

/// Whether `suffix` stands at the end of `s`.
pub fn has_suffix(s: &str, suffix: &str) -> (r: bool)
    ensures
        r == ends_with(s@, suffix@),
{
    let cs = chars_of(s);
    let xs = chars_of(suffix);
    if xs.len() > cs.len() {
        return false;
    }
    chars_occur_at(&cs, &xs, cs.len() - xs.len())
}

/// The characters `from..to` of `s`.
pub fn slice_text(s: &str, from: usize, to: usize) -> (r: String)
    requires
        from <= to <= s@.len(),
    ensures
        r@ == s@.subrange(from as int, to as int),
{
    string_of(&chars_of(s), from, to)
}

/// `s` without the last character if that is `c`.
pub open spec fn without_last(s: Seq<char>, c: char) -> Option<Seq<char>> {
    if s.len() > 0 && s.last() == c {
        Some(s.drop_last())
    } else {
        None
    }
}

/// `s` without its last character, if that is `c`.
pub fn strip_last(s: &str, c: char) -> (r: Option<String>)
    ensures
        match r {
            Some(t) => without_last(s@, c) == Some(t@),
            None => without_last(s@, c) is None,
        },
{
    let cs = chars_of(s);
    if cs.len() > 0 && cs[cs.len() - 1] == c {
        let t = string_of(&cs, 0, cs.len() - 1);
        assert(t@ =~= s@.drop_last());
        Some(t)
    } else {
        None
    }
}

// ─── Splitting and joining ───────────────────────────────────────────────────

/// The parts of `s` between the separators `sep`: one more than there are
/// separators.
pub open spec fn split(s: Seq<char>, sep: char) -> Seq<Seq<char>>
    decreases s.len(),
{
    let i = find_char(s, sep);
    if 0 <= i < s.len() {
        seq![s.take(i)] + split(s.skip(i + 1), sep)
    } else {
        seq![s]
    }
}

pub proof fn lemma_split_nonempty(s: Seq<char>, sep: char)
    ensures
        split(s, sep).len() >= 1,
        split(s, sep)[0] == before_char(s, sep),
{
    lemma_find_char(s, sep);
    if find_char(s, sep) == s.len() {
        assert(s.take(s.len() as int) =~= s);
    }
}

/// The parts of `s` between the separators `sep`.
pub fn split_text(s: &str, sep: char) -> (r: Vec<String>)
    ensures
        r.deep_view() == split(s@, sep),
{
    let cs = chars_of(s);
    let mut out: Vec<String> = Vec::new();
    let mut start: usize = 0;
    assert(cs@.skip(0) =~= cs@);
    assert(out.deep_view() =~= Seq::<Seq<char>>::empty());
    assert(out.deep_view() + split(cs@, sep) =~= split(cs@, sep));
    loop
        invariant_except_break
            start <= cs@.len(),
            split(cs@, sep) == out.deep_view() + split(cs@.skip(start as int), sep),
        invariant
            cs@ == s@,
        ensures
            out.deep_view() == split(s@, sep),
        decreases cs@.len() + 1 - start,
    {
        let i = index_of(&cs, start, sep);
        let ghost before = out.deep_view();
        let ghost rest = cs@.skip(start as int);
        let part = string_of(&cs, start, i);
        assert(part@ =~= rest.take(i - start));
        out.push(part);
        assert(out.deep_view() =~= before.push(rest.take(i - start)));
        if i >= cs.len() {
            assert(rest.take(i - start) =~= rest);
            assert(out.deep_view() =~= before + seq![rest]);
            break;
        }
        start = i + 1;
        proof {
            let off = find_char(rest, sep);
            assert(rest.skip(off + 1) =~= cs@.skip(start as int));
            assert(out.deep_view() + split(cs@.skip(start as int), sep) =~= before + (seq![
                rest.take(off),
            ] + split(rest.skip(off + 1), sep)));
        }
    }
    out
}

/// The parts put one after the other, with `sep` between each two.
pub open spec fn join(parts: Seq<Seq<char>>, sep: Seq<char>) -> Seq<char>
    decreases parts.len(),
{
    if parts.len() == 0 {
        Seq::empty()
    } else if parts.len() == 1 {
        parts[0]
    } else {
        join(parts.drop_last(), sep) + sep + parts.last()
    }
}

/// The parts put one after the other, with `sep` between each two.
pub fn join_text(parts: &Vec<String>, sep: &str) -> (r: String)
    ensures
        r@ == join(parts.deep_view(), sep@),
{
    let mut out = String::new();
    let mut i: usize = 0;
    let ghost all = parts.deep_view();
    while i < parts.len()
        invariant
            i <= parts@.len(),
            all == parts.deep_view(),
            out@ == join(all.take(i as int), sep@),
        decreases parts@.len() - i,
    {
        if i > 0 {
            out.append(sep);
        }
        out.append(parts[i].as_str());
        i += 1;
        proof {
            let t = all.take(i as int);
            assert(t.drop_last() =~= all.take(i - 1));
            assert(t.last() == parts@[i - 1]@);
            if i == 1 {
                assert(out@ =~= t[0]);
            }
        }
    }
    assert(all.take(i as int) =~= all);
    out
}

/// `s` without one `'\r'` at its end.
pub open spec fn without_cr(s: Seq<char>) -> Seq<char> {
    match without_last(s, '\r') {
        Some(t) => t,
        None => s,
    }
}

/// The lines of `s`: what stands between line feeds, without a carriage return
/// before the line feed; an empty last line does not count.
pub open spec fn lines(s: Seq<char>) -> Seq<Seq<char>> {
    let parts = split(s, '\n');
    let ended = parts.drop_last().map_values(|p: Seq<char>| without_cr(p));
    if parts.last().len() == 0 {
        ended
    } else {
        ended.push(parts.last())
    }
}

/// The lines of `s`.
pub fn lines_of(s: &str) -> (r: Vec<String>)
    ensures
        r.deep_view() == lines(s@),
{
    let parts = split_text(s, '\n');
    let ghost ps = parts.deep_view();
    proof {
        lemma_split_nonempty(s@, '\n');
    }
    let mut out: Vec<String> = Vec::new();
    let mut i: usize = 0;
    let last: usize = parts.len() - 1;
    while i < last
        invariant
            i <= last,
            last + 1 == parts@.len(),
            ps == parts.deep_view(),
            out@.len() == i,
            forall|k: int| 0 <= k < i ==> #[trigger] out@[k]@ == without_cr(ps[k]),
        decreases last - i,
    {
        match strip_last(parts[i].as_str(), '\r') {
            Some(t) => out.push(t),
            None => out.push(parts[i].clone()),
        }
        i += 1;
    }
    let ghost ended = ps.drop_last().map_values(|p: Seq<char>| without_cr(p));
    assert(out.deep_view() =~= ended);
    if !parts[i].as_str().is_empty() {
        out.push(parts[i].clone());
        assert(out.deep_view() =~= ended.push(ps.last()));
    }
    out
}

// ─── Facts about splitting and joining ───────────────────────────────────────

/// `c` does not stand in `s`.
pub open spec fn lacks_char(s: Seq<char>, c: char) -> bool {
    forall|i: int| 0 <= i < s.len() ==> #[trigger] s[i] != c
}

pub proof fn lemma_find_char_lacking(s: Seq<char>, c: char)
    requires
        lacks_char(s, c),
    ensures
        find_char(s, c) == s.len(),
{
    lemma_find_char(s, c);
}

/// The first `c` of `a`, `c`, `b` stands after `a` if `a` lacks it.
pub proof fn lemma_find_char_after(a: Seq<char>, c: char, b: Seq<char>)
    requires
        lacks_char(a, c),
    ensures
        find_char(a + seq![c] + b, c) == a.len(),
        before_char(a + seq![c] + b, c) == a,
        after_char(a + seq![c] + b, c) == b,
{
    let s = a + seq![c] + b;
    assert forall|k: int| 0 <= k < a.len() implies s[k] != c by {
        assert(s[k] == a[k]);
    }
    assert(s[a.len() as int] == c);
    lemma_find_char_is(s, c, a.len() as int);
    assert(before_char(s, c) =~= a);
    assert(after_char(s, c) =~= b);
}

/// No part of a split text holds the separator.
pub proof fn lemma_split_parts_lack(s: Seq<char>, sep: char)
    ensures
        forall|i: int| 0 <= i < split(s, sep).len() ==> lacks_char(#[trigger] split(s, sep)[i], sep),
    decreases s.len(),
{
    lemma_find_char(s, sep);
    let i = find_char(s, sep);
    if i < s.len() {
        let rest = s.skip(i + 1);
        lemma_split_parts_lack(rest, sep);
        assert forall|k: int| 0 <= k < split(s, sep).len() implies lacks_char(
            #[trigger] split(s, sep)[k],
            sep,
        ) by {
            if k > 0 {
                assert(split(s, sep)[k] == split(rest, sep)[k - 1]);
            } else {
                assert(split(s, sep)[0] == s.take(i));
            }
        }
    }
}

/// What does not stand in a text stands in no part of it.
pub proof fn lemma_split_keeps_lacking(s: Seq<char>, sep: char, c: char)
    requires
        lacks_char(s, c),
    ensures
        forall|i: int| 0 <= i < split(s, sep).len() ==> lacks_char(#[trigger] split(s, sep)[i], c),
    decreases s.len(),
{
    lemma_find_char(s, sep);
    let i = find_char(s, sep);
    if i < s.len() {
        let rest = s.skip(i + 1);
        assert(lacks_char(rest, c)) by {
            assert forall|k: int| 0 <= k < rest.len() implies #[trigger] rest[k] != c by {
                assert(rest[k] == s[k + i + 1]);
            }
        }
        lemma_split_keeps_lacking(rest, sep, c);
        assert forall|k: int| 0 <= k < split(s, sep).len() implies lacks_char(
            #[trigger] split(s, sep)[k],
            c,
        ) by {
            if k > 0 {
                assert(split(s, sep)[k] == split(rest, sep)[k - 1]);
            } else {
                assert(split(s, sep)[0] == s.take(i));
            }
        }
    }
}

/// What stands neither in the parts nor in the separator does not stand in the joined
/// text.
pub proof fn lemma_join_keeps_lacking(parts: Seq<Seq<char>>, sep: Seq<char>, c: char)
    requires
        forall|i: int| 0 <= i < parts.len() ==> lacks_char(#[trigger] parts[i], c),
        lacks_char(sep, c),
    ensures
        lacks_char(join(parts, sep), c),
    decreases parts.len(),
{
    if parts.len() == 1 {
        assert(lacks_char(parts[0], c));
    } else if parts.len() > 1 {
        let init = parts.drop_last();
        assert forall|i: int| 0 <= i < init.len() implies lacks_char(#[trigger] init[i], c) by {
            assert(init[i] == parts[i]);
        }
        lemma_join_keeps_lacking(init, sep, c);
        let last = parts[parts.len() - 1];
        assert(lacks_char(last, c));
        let a = join(init, sep);
        let s = join(parts, sep);
        assert(s == a + sep + last);
        assert forall|i: int| 0 <= i < s.len() implies #[trigger] s[i] != c by {
            if i < a.len() {
                assert(s[i] == a[i]);
            } else if i < a.len() + sep.len() {
                assert(s[i] == sep[i - a.len()]);
            } else {
                assert(s[i] == last[i - a.len() - sep.len()]);
            }
        }
    }
}

pub proof fn lemma_join_first(parts: Seq<Seq<char>>, sep: Seq<char>)
    requires
        parts.len() > 1,
    ensures
        join(parts, sep) == parts[0] + sep + join(parts.drop_first(), sep),
    decreases parts.len(),
{
    let init = parts.drop_last();
    let rest = parts.drop_first();
    if parts.len() == 2 {
        assert(join(init, sep) == parts[0]);
        assert(rest.len() == 1);
        assert(join(rest, sep) == parts[1]);
    } else {
        lemma_join_first(init, sep);
        assert(init.drop_first() =~= rest.drop_last());
        assert(join(rest, sep) == join(rest.drop_last(), sep) + sep + rest.last());
        assert(join(parts, sep) =~= parts[0] + sep + join(rest, sep));
    }
}

/// Splitting undoes joining when no part holds the separator.
pub proof fn lemma_split_join(parts: Seq<Seq<char>>, sep: char)
    requires
        parts.len() > 0,
        forall|i: int| 0 <= i < parts.len() ==> lacks_char(#[trigger] parts[i], sep),
    ensures
        split(join(parts, seq![sep]), sep) == parts,
    decreases parts.len(),
{
    let s = join(parts, seq![sep]);
    assert(lacks_char(parts[0], sep));
    if parts.len() == 1 {
        lemma_find_char_lacking(parts[0], sep);
        assert(split(s, sep) =~= parts);
    } else {
        let rest = parts.drop_first();
        lemma_join_first(parts, seq![sep]);
        lemma_find_char_after(parts[0], sep, join(rest, seq![sep]));
        assert forall|i: int| 0 <= i < rest.len() implies lacks_char(#[trigger] rest[i], sep) by {
            assert(rest[i] == parts[i + 1]);
        }
        lemma_split_join(rest, sep);
        assert(split(s, sep) =~= seq![parts[0]] + rest);
        assert(seq![parts[0]] + rest =~= parts);
    }
}

/// Parts that lack a character lack it when they are joined by another one.
pub proof fn lemma_join_lacks(parts: Seq<Seq<char>>, sep: char, c: char)
    requires
        c != sep,
        forall|i: int| 0 <= i < parts.len() ==> lacks_char(#[trigger] parts[i], c),
    ensures
        lacks_char(join(parts, seq![sep]), c),
    decreases parts.len(),
{
    if parts.len() == 1 {
        assert(lacks_char(parts[0], c));
    } else if parts.len() > 1 {
        let init = parts.drop_last();
        assert forall|i: int| 0 <= i < init.len() implies lacks_char(#[trigger] init[i], c) by {
            assert(init[i] == parts[i]);
        }
        lemma_join_lacks(init, sep, c);
        assert(lacks_char(parts[parts.len() - 1], c));
        let a = join(init, seq![sep]);
        let whole = join(parts, seq![sep]);
        assert forall|i: int| 0 <= i < whole.len() implies #[trigger] whole[i] != c by {
            if i < a.len() {
                assert(whole[i] == a[i]);
            } else if i > a.len() {
                assert(whole[i] == parts.last()[i - a.len() - 1]);
            }
        }
    }
}

/// A text is found wherever it stands.
pub proof fn law_text_is_found(before: Seq<char>, needle: Seq<char>, after: Seq<char>)
    ensures
        contains_text(before + needle + after, needle),
        starts_with(needle + after, needle),
        ends_with(before + needle, needle),
{
    let n = before.len() as int;
    let hay = before + needle + after;
    assert(hay.subrange(n, n + needle.len()) =~= needle);
    assert(occurs_at(hay, needle, n));
    assert((needle + after).subrange(0, needle.len() as int) =~= needle);
    let s = before + needle;
    assert(s.subrange(n, n + needle.len()) =~= needle);
}

/// What is found stands in the text.
pub proof fn law_found_text_stands(hay: Seq<char>, needle: Seq<char>)
    requires
        contains_text(hay, needle),
    ensures
        exists|before: Seq<char>, after: Seq<char>| hay == #[trigger] (before + needle + after),
{
    let i = choose|i: int| occurs_at(hay, needle, i);
    let before = hay.take(i);
    let after = hay.skip(i + needle.len());
    assert(hay.subrange(i, i + needle.len()) == needle);
    assert(hay =~= before + needle + after) by {
        assert forall|k: int| 0 <= k < hay.len() implies hay[k] == (before + needle + after)[k] by {
            if i <= k < i + needle.len() {
                assert(hay.subrange(i, i + needle.len())[k - i] == hay[k]);
            }
        }
    }
}

/// Texts are ordered by the first character in which they differ, and a text comes before
/// those that it begins.
pub proof fn law_text_order(common: Seq<char>, x: char, a: Seq<char>, y: char, b: Seq<char>)
    requires
        x != y,
    ensures
        text_lt(common + seq![x] + a, common + seq![y] + b) == ((x as int) < (y as int)),
        text_lt(common, common + seq![x] + a),
    decreases common.len(),
{
    let s = common + seq![x] + a;
    let t = common + seq![y] + b;
    if common.len() > 0 {
        let c = common.drop_first();
        assert(s.drop_first() =~= c + seq![x] + a);
        assert(t.drop_first() =~= c + seq![y] + b);
        assert(s[0] == common[0] && t[0] == common[0]);
        law_text_order(c, x, a, y, b);
    } else {
        assert(s[0] == x && t[0] == y);
    }
}

} // verus!
