//! Decimal numbers as text.
use crate::chars;
use crate::chars::digit;
use crate::text::chars_of;
use vstd::prelude::*;
use vstd::string::StringExecFns;

verus! {

// ─── Writing ─────────────────────────────────────────────────────────────────

/// The digit `d` as a character.
pub open spec fn digit_char(d: nat) -> char {
    (48 + d) as char
}

/// The decimal digits of `n`, without leading zeros.
pub open spec fn decimal(n: nat) -> Seq<char>
    decreases n,
{
    if n < 10 {
        seq![digit_char(n)]
    } else {
        decimal(n / 10).push(digit_char(n % 10))
    }
}

/// The decimal digits of `n`.
pub fn decimal_text(n: u64) -> (r: String)
    ensures
        r@ == decimal(n as nat),
    decreases n,
{
    let mut s = if n < 10 {
        String::new()
    } else {
        decimal_text(n / 10)
    };
    let d: u8 = (n % 10) as u8;
    s.push((48 + d) as char);
    assert(n < 10 ==> s@ =~= seq![digit_char(n as nat)]);
    s
}

/// The decimal digits of `n`, after a minus sign if it is negative.
pub open spec fn signed_decimal(n: int) -> Seq<char> {
    if n < 0 {
        seq!['-'] + decimal((-n) as nat)
    } else {
        decimal(n as nat)
    }
}

/// The decimal digits of `n`, after a minus sign if it is negative.
pub fn signed_decimal_text(n: i64) -> (r: String)
    ensures
        r@ == signed_decimal(n as int),
{
    if n < 0 {
        let magnitude: u64 = (-(n as i128)) as u64;
        let mut s = String::new();
        s.push('-');
        s.append(decimal_text(magnitude).as_str());
        assert(s@ =~= signed_decimal(n as int));
        s
    } else {
        decimal_text(n as u64)
    }
}

// ─── Reading ─────────────────────────────────────────────────────────────────

/// The value of a digit.
pub open spec fn digit_value(c: char) -> nat {
    (c as int - 48) as nat
}

/// The value of a sequence of digits.
pub open spec fn digits_value(s: Seq<char>) -> nat
    decreases s.len(),
{
    if s.len() == 0 {
        0
    } else {
        digits_value(s.drop_last()) * 10 + digit_value(s.last())
    }
}

/// One or more digits.
pub open spec fn all_digits(s: Seq<char>) -> bool {
    s.len() > 0 && forall|i: int| 0 <= i < s.len() ==> chars::is_digit(#[trigger] s[i])
}

/// `s` without a leading plus sign.
pub open spec fn without_plus(s: Seq<char>) -> Seq<char> {
    if s.len() > 0 && s[0] == '+' {
        s.drop_first()
    } else {
        s
    }
}

/// The number that a text holds, if it is no greater than `max`: digits, after an
/// optional plus sign.
pub open spec fn unsigned_in(s: Seq<char>, max: nat) -> Option<nat> {
    let d = without_plus(s);
    if all_digits(d) && digits_value(d) <= max {
        Some(digits_value(d))
    } else {
        None
    }
}

proof fn lemma_digits_value_grows(s: Seq<char>, n: int)
    requires
        0 <= n <= s.len(),
    ensures
        digits_value(s.take(n)) <= digits_value(s),
    decreases s.len() - n,
{
    if n < s.len() {
        lemma_digits_value_grows(s, n + 1);
        let t = s.take(n + 1);
        assert(t.drop_last() =~= s.take(n));
    } else {
        assert(s.take(n) =~= s);
    }
}

/// Reads the number that a text holds, if it is no greater than `max`.
pub fn parse_unsigned(s: &str, max: u64) -> (r: Option<u64>)
    ensures
        match r {
            Some(v) => unsigned_in(s@, max as nat) == Some(v as nat),
            None => unsigned_in(s@, max as nat) is None,
        },
{
    let cs = chars_of(s);
    let ghost d = without_plus(s@);
    let from: usize = if cs.len() > 0 && cs[0] == '+' {
        1
    } else {
        0
    };
    assert(d =~= cs@.skip(from as int));
    if from >= cs.len() {
        return None;
    }
    let mut value: u64 = 0;
    let mut i: usize = from;
    assert(d.take(0) =~= Seq::empty());
    while i < cs.len()
        invariant
            cs@ == s@,
            d == without_plus(s@),
            d == cs@.skip(from as int),
            from <= i <= cs@.len(),
            value == digits_value(d.take(i - from)),
            value <= max,
            forall|j: int| 0 <= j < i - from ==> chars::is_digit(#[trigger] d[j]),
        decreases cs@.len() - i,
    {
        let c = cs[i];
        assert(d[i - from] == c);
        if !digit(c) {
            return None;
        }
        let x: u64 = (c as u8 - 48) as u64;
        proof {
            let t = d.take(i + 1 - from);
            assert(t.drop_last() =~= d.take(i - from));
            assert(t.last() == c);
            assert(digits_value(t) == value * 10 + x);
            lemma_digits_value_grows(d, i + 1 - from);
        }
        if x > max || value > (max - x) / 10 {
            assert(value * 10 + x > max);
            return None;
        }
        value = value * 10 + x;
        i += 1;
    }
    assert(d.take(i - from) =~= d);
    Some(value)
}

/// The signed 32-bit number that a text holds: digits after an optional sign.
pub open spec fn signed_in(s: Seq<char>) -> Option<int> {
    if s.len() > 0 && s[0] == '-' {
        let d = s.drop_first();
        if all_digits(d) && digits_value(d) <= 0x8000_0000 {
            Some(-(digits_value(d) as int))
        } else {
            None
        }
    } else {
        match unsigned_in(s, 0x7fff_ffff) {
            Some(n) => Some(n as int),
            None => None,
        }
    }
}

/// Reads the signed 32-bit number that a text holds.
pub fn parse_i32(s: &str) -> (r: Option<i32>)
    ensures
        match r {
            Some(v) => signed_in(s@) == Some(v as int),
            None => signed_in(s@) is None,
        },
{
    let cs = chars_of(s);
    if cs.len() > 0 && cs[0] == '-' {
        if cs.len() > 1 && cs[1] == '+' {
            assert(!chars::is_digit(s@.drop_first()[0]));
            return None;
        }
        let rest = crate::text::string_of(&cs, 1, cs.len());
        assert(rest@ =~= s@.drop_first());
        assert(without_plus(rest@) == rest@);
        match parse_unsigned(rest.as_str(), 0x8000_0000) {
            Some(v) => Some((-(v as i64)) as i32),
            None => None,
        }
    } else {
        match parse_unsigned(s, 0x7fff_ffff) {
            Some(v) => Some(v as i32),
            None => None,
        }
    }
}

/// The decimal digits of a number are read back as that number.
pub proof fn law_decimal_round_trip(n: nat, max: nat)
    requires
        n <= max,
    ensures
        unsigned_in(decimal(n), max) == Some(n),
{
    lemma_decimal_digits(n);
    assert(chars::is_digit(decimal(n)[0]));
    assert(without_plus(decimal(n)) == decimal(n));
}

/// The decimal text of a number is digits that have its value.
pub proof fn lemma_decimal_digits(n: nat)
    ensures
        all_digits(decimal(n)),
        digits_value(decimal(n)) == n,
    decreases n,
{
    if n < 10 {
        let s = decimal(n);
        assert(s.drop_last() =~= Seq::empty());
        assert(digits_value(s.drop_last()) == 0);
    } else {
        lemma_decimal_digits(n / 10);
        let t = decimal(n / 10);
        let s = decimal(n);
        assert(s.drop_last() =~= t);
        assert forall|i: int| 0 <= i < s.len() implies chars::is_digit(#[trigger] s[i]) by {
            if i < t.len() {
                assert(s[i] == t[i]);
            }
        }
    }
}

/// Different numbers have different digits.
pub proof fn law_decimal_injective(a: nat, b: nat)
    requires
        decimal(a) == decimal(b),
    ensures
        a == b,
{
    lemma_decimal_digits(a);
    lemma_decimal_digits(b);
}

/// Digits hold no other character.
pub proof fn lemma_decimal_lacks(n: nat, c: char)
    requires
        !chars::is_digit(c),
    ensures
        crate::text::lacks_char(decimal(n), c),
{
    lemma_decimal_digits(n);
}

/// A text holds no number if it is empty, if anything but digits stands in it, a leading
/// plus sign apart, or if its number is too great.
pub proof fn law_what_is_no_number(s: Seq<char>, max: nat, k: int, n: nat)
    ensures
        s.len() == 0 ==> unsigned_in(s, max) is None,
        0 < k < s.len() && !('0' <= s[k] <= '9') ==> unsigned_in(s, max) is None,
        s.len() > 0 && !('0' <= s[0] <= '9') && s[0] != '+' ==> unsigned_in(s, max) is None,
        n > max ==> unsigned_in(decimal(n), max) is None,
        n <= max ==> unsigned_in(seq!['+'] + decimal(n), max) == Some(n),
{
    let d = without_plus(s);
    if 0 < k < s.len() && !('0' <= s[k] <= '9') {
        if s[0] == '+' {
            assert(d[k - 1] == s[k]);
        } else {
            assert(d[k] == s[k]);
        }
    }
    if s.len() > 0 && !('0' <= s[0] <= '9') && s[0] != '+' {
        assert(d[0] == s[0]);
    }
    lemma_decimal_digits(n);
    assert(chars::is_digit(decimal(n)[0]));
    assert((seq!['+'] + decimal(n)).drop_first() =~= decimal(n));
}

/// Numbers are written in decimal digits.
pub proof fn law_decimal_digits(n: nat, d: nat)
    requires
        d < 10,
    ensures
        decimal(d) == seq![(48 + d) as char],
        n > 0 ==> decimal(n * 10 + d) == decimal(n).push((48 + d) as char),
{
    if n > 0 {
        let m = n * 10 + d;
        assert(m >= 10);
        assert(m / 10 == n && m % 10 == d) by (nonlinear_arith)
            requires
                m == n * 10 + d,
                d < 10,
        ;
    }
}

} // verus!
