//! Character classes and string building blocks shared by every pass.
use vstd::prelude::*;

verus! {

/// `String::push` appends one character to the end of the string; the
/// contract states exactly that the new contents are the old ones with
/// `ch` added at the end.
pub assume_specification[ std::string::String::push ](s: &mut std::string::String, ch: char)
    ensures
        final(s)@ == old(s)@.push(ch),
;

/// Whether `c` carries Unicode's `Alphabetic` property.
pub uninterp spec fn unicode_alphabetic(c: char) -> bool;

/// Whether `c` carries `Alphabetic` or one of the numeric general categories.
pub uninterp spec fn unicode_alphanumeric(c: char) -> bool;

/// Whether `c` carries Unicode's `White_Space` property.
pub uninterp spec fn unicode_whitespace(c: char) -> bool;

/// Calls `char::is_alphabetic`; the result is named by `unicode_alphabetic`,
/// a fixed property of the character. Among ASCII characters, Unicode's
/// `Alphabetic` holds of the letters `A`..=`Z` and `a`..=`z` alone.
#[verifier::external_body]
pub(crate) fn char_is_alphabetic(c: char) -> (r: bool)
    ensures
        r == unicode_alphabetic(c),
        c <= '\x7f' ==> (r <==> ('a' <= c <= 'z' || 'A' <= c <= 'Z')),
{
    c.is_alphabetic()
}

/// Calls `char::is_alphanumeric`; the result is named by
/// `unicode_alphanumeric`, a fixed property of the character. As its
/// documentation states, every alphabetic character is alphanumeric.
/// Among ASCII characters these are the letters and the digits `0`..=`9`.
#[verifier::external_body]
pub(crate) fn char_is_alphanumeric(c: char) -> (r: bool)
    ensures
        r == unicode_alphanumeric(c),
        unicode_alphabetic(c) ==> r,
        c <= '\x7f' ==> (r <==> ('a' <= c <= 'z' || 'A' <= c <= 'Z' || '0' <= c <= '9')),
{
    c.is_alphanumeric()
}

/// Calls `char::is_whitespace`; the result is named by `unicode_whitespace`,
/// a fixed property of the character. Among ASCII characters, Unicode's
/// `White_Space` holds of U+0009..=U+000D (tab, line feed, vertical tab,
/// form feed, carriage return) and the space alone.
#[verifier::external_body]
pub(crate) fn char_is_whitespace(c: char) -> (r: bool)
    ensures
        r == unicode_whitespace(c),
        c <= '\x7f' ==> (r <==> ('\t' <= c <= '\r' || c == ' ')),
{
    c.is_whitespace()
}

/// ASCII decimal digit `0`..=`9`.
pub open spec fn is_ascii_digit(c: char) -> bool {
    '0' <= c && c <= '9'
}

pub fn ascii_digit(c: char) -> (r: bool)
    ensures
        r == is_ascii_digit(c),
{
    '0' <= c && c <= '9'
}

/// Numeric value of an ASCII digit.
pub open spec fn digit_value(c: char) -> int {
    (c as int) - ('0' as int)
}

/// The characters of `lit`, as an owned `String`.
pub fn string_of(lit: &str) -> (r: String)
    ensures
        r@ == lit@,
{
    let mut out = String::new();
    for c in it: lit.chars()
        invariant
            out@ == it.seq().take(it.index() as int),
            it.seq() == lit@,
    {
        out.push(c);
    }
    proof {
        assert(out@ =~= lit@);
    }
    out
}

/// `a` followed by `b`.
pub fn concat(a: &String, b: &str) -> (r: String)
    ensures
        r@ == a@ + b@,
{
    let mut out = a.clone();
    for c in it: b.chars()
        invariant
            out@ == a@ + it.seq().take(it.index() as int),
            it.seq() == b@,
    {
        proof {
            assert(it.seq().take(it.index() + 1) =~= it.seq().take(it.index() as int).push(c));
        }
        out.push(c);
    }
    out
}

/// `prefix`, then `middle`, then `suffix`.
pub fn wrap(prefix: &str, middle: &String, suffix: &str) -> (r: String)
    ensures
        r@ == prefix@ + middle@ + suffix@,
{
    let p = string_of(prefix);
    let pm = concat(&p, middle.as_str());
    concat(&pm, suffix)
}

/// Whether the characters of `s` are exactly those of `lit`.
pub fn string_is(s: &String, lit: &str) -> (r: bool)
    ensures
        r == (s@ == lit@),
{
    let other = string_of(lit);
    *s == other
}

/// Decimal digits of a natural number, most significant first, with no
/// leading zeros (`0` is the single digit `0`).
pub open spec fn decimal_digits(n: nat) -> Seq<char>
    decreases n,
{
    if n < 10 {
        seq![(('0' as nat) + n) as char]
    } else {
        decimal_digits(n / 10).push((('0' as nat) + (n % 10)) as char)
    }
}

/// Decimal rendering of an integer: a leading `-` for negative values.
pub open spec fn int_text(i: int) -> Seq<char> {
    if i < 0 {
        seq!['-'] + decimal_digits((-i) as nat)
    } else {
        decimal_digits(i as nat)
    }
}

fn digit_char(d: u64) -> (c: char)
    requires
        d < 10,
    ensures
        c == (('0' as nat) + d) as char,
{
    if d == 0 { '0' }
    else if d == 1 { '1' }
    else if d == 2 { '2' }
    else if d == 3 { '3' }
    else if d == 4 { '4' }
    else if d == 5 { '5' }
    else if d == 6 { '6' }
    else if d == 7 { '7' }
    else if d == 8 { '8' }
    else { '9' }
}

/// Decimal digits of an unsigned 64-bit value.
pub fn u64_to_string(n: u64) -> (r: String)
    ensures
        r@ == decimal_digits(n as nat),
    decreases n,
{
    if n < 10 {
        let mut s = String::new();
        s.push(digit_char(n));
        proof {
            assert(s@ =~= decimal_digits(n as nat));
        }
        s
    } else {
        let mut s = u64_to_string(n / 10);
        s.push(digit_char(n % 10));
        s
    }
}

/// Decimal rendering of a signed 64-bit value, as `i64::to_string` gives it.
pub fn i64_to_string(i: i64) -> (r: String)
    ensures
        r@ == int_text(i as int),
{
    if i < 0 {
        let magnitude: u64 = if i == i64::MIN {
            9223372036854775808u64
        } else {
            (-i) as u64
        };
        let digits = u64_to_string(magnitude);
        let mut s = String::new();
        s.push('-');
        let r = concat(&s, digits.as_str());
        proof {
            assert(s@ =~= seq!['-']);
        }
        r
    } else {
        u64_to_string(i as u64)
    }
}

/// Decimal rendering of a `usize`, as `usize::to_string` gives it.
pub fn usize_to_string(n: usize) -> (r: String)
    ensures
        r@ == decimal_digits(n as nat),
{
    u64_to_string(n as u64)
}

/// What `{:?}` writes for a character: the character between single
/// quotes, escaped for display (a single quote is escaped, a double quote
/// is not).
pub uninterp spec fn char_debug(c: char) -> Seq<char>;

/// Formats `c` with `{:?}` (std's `Debug` for `char`); the result is named
/// by `char_debug`, a function of the character alone.
#[verifier::external_body]
pub(crate) fn char_debug_text(c: char) -> (r: String)
    ensures
        r@ == char_debug(c),
{
    format!("{:?}", c)
}

/// What `{:?}` writes for a string: its characters between double quotes,
/// escaped for display (a double quote is escaped, a single quote is not).
pub uninterp spec fn str_debug(s: Seq<char>) -> Seq<char>;

/// Formats `s` with `{:?}` (std's `Debug` for `str`); the result is named
/// by `str_debug`, a function of the characters alone.
#[verifier::external_body]
pub(crate) fn str_debug_text(s: &str) -> (r: String)
    ensures
        r@ == str_debug(s@),
{
    format!("{:?}", s)
}

} // verus!
