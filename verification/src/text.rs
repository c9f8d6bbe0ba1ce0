//! Character-level helpers: conversion between `String` and `Vec<char>`,
//! decimal rendering and parsing of `i16`.
use vstd::prelude::*;

verus! {

/// Appends one character to a string (`String::push`).
/// Trusted: the view of the string grows by exactly that character.
#[verifier::external_body]
fn push_char(s: &mut String, c: char)
    ensures
        final(s)@ == old(s)@.push(c),
{
    s.push(c);
}

/// The characters of a string slice, in order.
pub fn chars_of(s: &str) -> (v: Vec<char>)
    ensures
        v@ == s@,
{
    let mut v: Vec<char> = Vec::new();
    for c in it: s.chars()
        invariant
            v@ == it.seq().take(it.index() as int),
    {
        v.push(c);
    }
    v
}

/// Builds a string holding exactly the given characters.
pub fn string_of(v: &Vec<char>) -> (s: String)
    ensures
        s@ == v@,
{
    let mut s = String::new();
    let mut i: usize = 0;
    while i < v.len()
        invariant
            i <= v.len(),
            s@ == v@.take(i as int),
        decreases v.len() - i,
    {
        push_char(&mut s, v[i]);
        assert(v@.take(i as int).push(v@[i as int]) =~= v@.take(i + 1));
        i += 1;
    }
    assert(v@.take(v.len() as int) =~= v@);
    s
}


/// Whether a character is an ASCII decimal digit.
pub open spec fn is_digit(c: char) -> bool {
    '0' <= c && c <= '9'
}

/// The numeric value of an ASCII decimal digit.
pub open spec fn digit_value(c: char) -> int {
    c as int - '0' as int
}

/// The ASCII digit for a value below ten.
pub open spec fn digit_char(d: int) -> char {
    (d + '0' as int) as char
}

/// The value of a sequence of decimal digits, most significant first.
pub open spec fn digits_value(s: Seq<char>) -> int
    decreases s.len(),
{
    if s.len() == 0 {
        0
    } else {
        digits_value(s.drop_last()) * 10 + digit_value(s.last())
    }
}

/// The decimal digits of a natural number, without leading zeros
/// (zero itself is written as a single `0`).
pub open spec fn digits_of(n: nat) -> Seq<char>
    decreases n,
{
    if n < 10 {
        seq![digit_char(n as int)]
    } else {
        digits_of(n / 10).push(digit_char((n % 10) as int))
    }
}

/// The decimal rendering of an integer, as `Display` writes it: a minus sign
/// for negative numbers, then the digits of the magnitude.
pub open spec fn decimal(n: int) -> Seq<char> {
    if n < 0 {
        seq!['-'] + digits_of((-n) as nat)
    } else {
        digits_of(n as nat)
    }
}

/// Strips one leading sign: whether the number is negative, and the rest.
pub open spec fn split_sign(s: Seq<char>) -> (bool, Seq<char>) {
    if s.len() > 0 && s[0] == '-' {
        (true, s.drop_first())
    } else if s.len() > 0 && s[0] == '+' {
        (false, s.drop_first())
    } else {
        (false, s)
    }
}

/// What `str::parse::<i16>` accepts and returns: an optional `+` or `-` sign
/// followed by at least one decimal digit and nothing else, whose value fits
/// in an `i16`.
pub open spec fn parse_i16_spec(s: Seq<char>) -> Option<i16> {
    let (neg, body) = split_sign(s);
    if body.len() > 0 && (forall|i: int| 0 <= i < body.len() ==> is_digit(#[trigger] body[i])) {
        let v = if neg {
            -digits_value(body)
        } else {
            digits_value(body)
        };
        if i16::MIN <= v && v <= i16::MAX {
            Some(v as i16)
        } else {
            None
        }
    } else {
        None
    }
}

proof fn lemma_digits_value_nonneg(s: Seq<char>)
    requires
        forall|i: int| 0 <= i < s.len() ==> is_digit(#[trigger] s[i]),
    ensures
        digits_value(s) >= 0,
    decreases s.len(),
{
    if s.len() > 0 {
        lemma_digits_value_nonneg(s.drop_last());
    }
}

/// Parses a decimal `i16` the way `str::parse::<i16>` does.
pub fn parse_i16(s: &Vec<char>) -> (r: Option<i16>)
    ensures
        r == parse_i16_spec(s@),
{
    let n = s.len();
    let mut start: usize = 0;
    let mut neg = false;
    if n > 0 && s[0] == '-' {
        start = 1;
        neg = true;
    } else if n > 0 && s[0] == '+' {
        start = 1;
    }
    let ghost body = split_sign(s@).1;
    assert(body =~= s@.skip(start as int));
    if start >= n {
        return None;
    }
    let cap: i32 = 40000;
    let mut acc: i32 = 0;
    let mut i = start;
    while i < n
        invariant
            start <= i <= n,
            n == s@.len(),
            body =~= s@.skip(start as int),
            body == split_sign(s@).1,
            neg == split_sign(s@).0,
            forall|k: int| start <= k < i ==> is_digit(#[trigger] s@[k]),
            0 <= acc <= cap,
            cap == 40000,
            acc as int == if digits_value(s@.subrange(start as int, i as int)) < cap as int {
                digits_value(s@.subrange(start as int, i as int))
            } else {
                cap as int
            },
        decreases n - i,
    {
        let c = s[i];
        if !('0' <= c && c <= '9') {
            assert(body[i - start] == c);
            assert(!is_digit(body[i - start]));
            assert(!(forall|k: int| 0 <= k < body.len() ==> is_digit(#[trigger] body[k])));
            assert(parse_i16_spec(s@) is None);
            return None;
        }
        let d = (c as u32 - '0' as u32) as i32;
        let ghost prev = s@.subrange(start as int, i as int);
        let ghost next = s@.subrange(start as int, i + 1);
        assert(next.drop_last() =~= prev);
        proof {
            assert forall|k: int| 0 <= k < prev.len() implies is_digit(#[trigger] prev[k]) by {
                assert(prev[k] == s@[start + k]);
            }
            lemma_digits_value_nonneg(prev);
        }
        if acc >= cap {
            acc = cap;
        } else {
            let v = acc * 10 + d;
            acc = if v >= cap { cap } else { v };
        }
        i += 1;
    }
    let ghost digits = s@.subrange(start as int, n as int);
    assert(digits =~= body);
    let value: i32 = if neg { -acc } else { acc };
    if value < -32768 || value > 32767 {
        None
    } else {
        Some(value as i16)
    }
}

fn push_digits(m: u32, out: &mut Vec<char>)
    ensures
        final(out)@ == old(out)@ + digits_of(m as nat),
    decreases m,
{
    if m >= 10 {
        push_digits(m / 10, out);
    }
    let c = (48u8 + (m % 10) as u8) as char;
    assert(c == digit_char((m % 10) as int));
    out.push(c);
}

/// Renders an `i16` in decimal, as its `Display` implementation does.
pub fn i16_to_string(n: i16) -> (s: String)
    ensures
        s@ == decimal(n as int),
{
    let mut out: Vec<char> = Vec::new();
    let magnitude: u32 = if n < 0 {
        out.push('-');
        (-(n as i32)) as u32
    } else {
        n as u32
    };
    push_digits(magnitude, &mut out);
    string_of(&out)
}

} // verus!
