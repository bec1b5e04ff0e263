//! The grammar of one request token: an identifier with an optional quantity
//! suffix.
//!
//! Two rules are tried in order.
//!
//! 1. The separator rule: anything, a lowercase `x`, digits.  `KM18H5Ox2` is
//!    two units of `KM18H5O`.  What stands before the `x` is not empty.
//! 2. The suffix rule: ASCII letters and digits, then digits.  `KM18H5O2` is
//!    two units of `KM18H5O`.  At least one character is left before the
//!    digits: a token of digits only is no match.
//!
//! A token that neither rule matches is an identifier asked for once.
//!
//! The rules take the decimal digits of every script for digits, but a
//! quantity is read from ASCII digits only: a token whose digits hold any
//! other digit matches and is then refused as an invalid quantity.
//!
//! Each rule is a matcher of its own that answers with a [`Split`] or with
//! nothing; [`decode_split`] reads a token along a split, whichever rule
//! found it.

use vstd::prelude::*;
use crate::text::chars_of;

verus! {

/// Why a token could not be turned into an identifier and a quantity.  Each
/// variant holds the offending token.
#[derive(Debug)]
pub enum ParseError {
    /// The quantity is no number that a request can hold: its digits are
    /// not all ASCII digits, or it exceeds `u32::MAX`.
    InvalidQuantity(String),
    /// No split point between identifier and quantity could be determined.
    MalformedToken(String),
}

/// Where a matched token divides: the identifier is the characters before
/// `identifier_end`, the quantity digits are those from `digits_start` on.
#[derive(Debug, Clone, Copy, PartialEq, Eq, Structural)]
pub struct Split {
    pub identifier_end: usize,
    pub digits_start: usize,
}

/// An ASCII decimal digit, `0` to `9`.
pub open spec fn is_ascii_digit(c: char) -> bool {
    '0' <= c && c <= '9'
}

/// Whether the code point `v` is a decimal digit of some script: the ASCII
/// digits, and the digits of every other script that writes numbers with
/// ten digits.
pub open spec fn decimal_code_point(v: u32) -> bool {
    (0x0030 <= v && v <= 0x0039)
        || (0x0660 <= v && v <= 0x0669)
        || (0x06F0 <= v && v <= 0x06F9)
        || (0x07C0 <= v && v <= 0x07C9)
        || (0x0966 <= v && v <= 0x096F)
        || (0x09E6 <= v && v <= 0x09EF)
        || (0x0A66 <= v && v <= 0x0A6F)
        || (0x0AE6 <= v && v <= 0x0AEF)
        || (0x0B66 <= v && v <= 0x0B6F)
        || (0x0BE6 <= v && v <= 0x0BEF)
        || (0x0C66 <= v && v <= 0x0C6F)
        || (0x0CE6 <= v && v <= 0x0CEF)
        || (0x0D66 <= v && v <= 0x0D6F)
        || (0x0DE6 <= v && v <= 0x0DEF)
        || (0x0E50 <= v && v <= 0x0E59)
        || (0x0ED0 <= v && v <= 0x0ED9)
        || (0x0F20 <= v && v <= 0x0F29)
        || (0x1040 <= v && v <= 0x1049)
        || (0x1090 <= v && v <= 0x1099)
        || (0x17E0 <= v && v <= 0x17E9)
        || (0x1810 <= v && v <= 0x1819)
        || (0x1946 <= v && v <= 0x194F)
        || (0x19D0 <= v && v <= 0x19D9)
        || (0x1A80 <= v && v <= 0x1A89)
        || (0x1A90 <= v && v <= 0x1A99)
        || (0x1B50 <= v && v <= 0x1B59)
        || (0x1BB0 <= v && v <= 0x1BB9)
        || (0x1C40 <= v && v <= 0x1C49)
        || (0x1C50 <= v && v <= 0x1C59)
        || (0xA620 <= v && v <= 0xA629)
        || (0xA8D0 <= v && v <= 0xA8D9)
        || (0xA900 <= v && v <= 0xA909)
        || (0xA9D0 <= v && v <= 0xA9D9)
        || (0xA9F0 <= v && v <= 0xA9F9)
        || (0xAA50 <= v && v <= 0xAA59)
        || (0xABF0 <= v && v <= 0xABF9)
        || (0xFF10 <= v && v <= 0xFF19)
        || (0x104A0 <= v && v <= 0x104A9)
        || (0x10D30 <= v && v <= 0x10D39)
        || (0x10D40 <= v && v <= 0x10D49)
        || (0x11066 <= v && v <= 0x1106F)
        || (0x110F0 <= v && v <= 0x110F9)
        || (0x11136 <= v && v <= 0x1113F)
        || (0x111D0 <= v && v <= 0x111D9)
        || (0x112F0 <= v && v <= 0x112F9)
        || (0x11450 <= v && v <= 0x11459)
        || (0x114D0 <= v && v <= 0x114D9)
        || (0x11650 <= v && v <= 0x11659)
        || (0x116C0 <= v && v <= 0x116C9)
        || (0x116D0 <= v && v <= 0x116E3)
        || (0x11730 <= v && v <= 0x11739)
        || (0x118E0 <= v && v <= 0x118E9)
        || (0x11950 <= v && v <= 0x11959)
        || (0x11BF0 <= v && v <= 0x11BF9)
        || (0x11C50 <= v && v <= 0x11C59)
        || (0x11D50 <= v && v <= 0x11D59)
        || (0x11DA0 <= v && v <= 0x11DA9)
        || (0x11F50 <= v && v <= 0x11F59)
        || (0x16130 <= v && v <= 0x16139)
        || (0x16A60 <= v && v <= 0x16A69)
        || (0x16AC0 <= v && v <= 0x16AC9)
        || (0x16B50 <= v && v <= 0x16B59)
        || (0x16D70 <= v && v <= 0x16D79)
        || (0x1CCF0 <= v && v <= 0x1CCF9)
        || (0x1D7CE <= v && v <= 0x1D7FF)
        || (0x1E140 <= v && v <= 0x1E149)
        || (0x1E2F0 <= v && v <= 0x1E2F9)
        || (0x1E4F0 <= v && v <= 0x1E4F9)
        || (0x1E5F1 <= v && v <= 0x1E5FA)
        || (0x1E950 <= v && v <= 0x1E959)
        || (0x1FBF0 <= v && v <= 0x1FBF9)
}

/// A decimal digit of any script.
pub open spec fn is_digit(c: char) -> bool {
    decimal_code_point(c as u32)
}

/// An ASCII letter or decimal digit.
pub open spec fn is_alnum(c: char) -> bool {
    is_ascii_digit(c) || ('a' <= c && c <= 'z') || ('A' <= c && c <= 'Z')
}

/// Length of the longest run of digits that ends `s`.
pub open spec fn digit_run(s: Seq<char>) -> nat
    decreases s.len(),
{
    if s.len() == 0 || !is_digit(s.last()) {
        0
    } else {
        1 + digit_run(s.drop_last())
    }
}

/// Whether `s` holds ASCII digits only.
pub open spec fn all_ascii_digits(s: Seq<char>) -> bool {
    forall|i: int| 0 <= i < s.len() ==> is_ascii_digit(#[trigger] s[i])
}

/// The number that a sequence of ASCII digits denotes in base ten.
pub open spec fn digits_value(s: Seq<char>) -> nat
    decreases s.len(),
{
    if s.len() == 0 {
        0
    } else {
        digits_value(s.drop_last()) * 10 + (s.last() as int - '0' as int) as nat
    }
}

/// The separator rule: a non-empty prefix of any characters, a lowercase
/// `x`, and one or more digits up to the end.
pub open spec fn separator_split(s: Seq<char>) -> Option<(int, int)> {
    let k = digit_run(s) as int;
    let n = s.len() as int;
    if k >= 1 && n >= k + 2 && s[n - k - 1] == 'x' {
        Some((n - k - 1, n - k))
    } else {
        None
    }
}

/// The suffix rule: one or more ASCII letters and digits, and behind them
/// one or more digits up to the end that are not the whole token.
pub open spec fn suffix_split(s: Seq<char>) -> Option<(int, int)> {
    let k = digit_run(s) as int;
    let n = s.len() as int;
    if 1 <= k < n && (forall|i: int| 0 <= i < n - k ==> is_alnum(#[trigger] s[i])) {
        Some((n - k, n - k))
    } else {
        None
    }
}

/// The split of a token: that of the separator rule if it matches, else that
/// of the suffix rule.
pub open spec fn token_split(s: Seq<char>) -> Option<(int, int)> {
    if separator_split(s) is Some {
        separator_split(s)
    } else {
        suffix_split(s)
    }
}

/// The identifier that a token names.
pub open spec fn token_identifier(s: Seq<char>) -> Seq<char> {
    match token_split(s) {
        Some((end, _)) => s.take(end),
        None => s,
    }
}

/// Whether the quantity of a token can be read: its digits, if it has any,
/// are ASCII digits.
pub open spec fn token_readable(s: Seq<char>) -> bool {
    match token_split(s) {
        Some((_, start)) => all_ascii_digits(s.skip(start)),
        None => true,
    }
}

/// The quantity that a readable token asks for; 1 where it carries none.
pub open spec fn token_quantity(s: Seq<char>) -> nat {
    match token_split(s) {
        Some((_, start)) => digits_value(s.skip(start)),
        None => 1,
    }
}

/// Whether `split` is a possible division of `s`: a non-empty identifier,
/// and behind it, not overlapping, a non-empty run of digits up to the end.
pub open spec fn split_fits(s: Seq<char>, split: Split) -> bool {
    &&& 0 < split.identifier_end <= split.digits_start < s.len()
    &&& forall|i: int| split.digits_start <= i < s.len() ==> is_digit(s[i])
}

/// Whether `c` is an ASCII decimal digit.
fn is_ascii_digit_char(c: char) -> (b: bool)
    ensures
        b == is_ascii_digit(c),
{
    '0' <= c && c <= '9'
}

/// Whether `c` is a decimal digit of any script.
pub fn is_digit_char(c: char) -> (b: bool)
    ensures
        b == is_digit(c),
{
    let v: u32 = c as u32;
    (0x0030 <= v && v <= 0x0039)
        || (0x0660 <= v && v <= 0x0669)
        || (0x06F0 <= v && v <= 0x06F9)
        || (0x07C0 <= v && v <= 0x07C9)
        || (0x0966 <= v && v <= 0x096F)
        || (0x09E6 <= v && v <= 0x09EF)
        || (0x0A66 <= v && v <= 0x0A6F)
        || (0x0AE6 <= v && v <= 0x0AEF)
        || (0x0B66 <= v && v <= 0x0B6F)
        || (0x0BE6 <= v && v <= 0x0BEF)
        || (0x0C66 <= v && v <= 0x0C6F)
        || (0x0CE6 <= v && v <= 0x0CEF)
        || (0x0D66 <= v && v <= 0x0D6F)
        || (0x0DE6 <= v && v <= 0x0DEF)
        || (0x0E50 <= v && v <= 0x0E59)
        || (0x0ED0 <= v && v <= 0x0ED9)
        || (0x0F20 <= v && v <= 0x0F29)
        || (0x1040 <= v && v <= 0x1049)
        || (0x1090 <= v && v <= 0x1099)
        || (0x17E0 <= v && v <= 0x17E9)
        || (0x1810 <= v && v <= 0x1819)
        || (0x1946 <= v && v <= 0x194F)
        || (0x19D0 <= v && v <= 0x19D9)
        || (0x1A80 <= v && v <= 0x1A89)
        || (0x1A90 <= v && v <= 0x1A99)
        || (0x1B50 <= v && v <= 0x1B59)
        || (0x1BB0 <= v && v <= 0x1BB9)
        || (0x1C40 <= v && v <= 0x1C49)
        || (0x1C50 <= v && v <= 0x1C59)
        || (0xA620 <= v && v <= 0xA629)
        || (0xA8D0 <= v && v <= 0xA8D9)
        || (0xA900 <= v && v <= 0xA909)
        || (0xA9D0 <= v && v <= 0xA9D9)
        || (0xA9F0 <= v && v <= 0xA9F9)
        || (0xAA50 <= v && v <= 0xAA59)
        || (0xABF0 <= v && v <= 0xABF9)
        || (0xFF10 <= v && v <= 0xFF19)
        || (0x104A0 <= v && v <= 0x104A9)
        || (0x10D30 <= v && v <= 0x10D39)
        || (0x10D40 <= v && v <= 0x10D49)
        || (0x11066 <= v && v <= 0x1106F)
        || (0x110F0 <= v && v <= 0x110F9)
        || (0x11136 <= v && v <= 0x1113F)
        || (0x111D0 <= v && v <= 0x111D9)
        || (0x112F0 <= v && v <= 0x112F9)
        || (0x11450 <= v && v <= 0x11459)
        || (0x114D0 <= v && v <= 0x114D9)
        || (0x11650 <= v && v <= 0x11659)
        || (0x116C0 <= v && v <= 0x116C9)
        || (0x116D0 <= v && v <= 0x116E3)
        || (0x11730 <= v && v <= 0x11739)
        || (0x118E0 <= v && v <= 0x118E9)
        || (0x11950 <= v && v <= 0x11959)
        || (0x11BF0 <= v && v <= 0x11BF9)
        || (0x11C50 <= v && v <= 0x11C59)
        || (0x11D50 <= v && v <= 0x11D59)
        || (0x11DA0 <= v && v <= 0x11DA9)
        || (0x11F50 <= v && v <= 0x11F59)
        || (0x16130 <= v && v <= 0x16139)
        || (0x16A60 <= v && v <= 0x16A69)
        || (0x16AC0 <= v && v <= 0x16AC9)
        || (0x16B50 <= v && v <= 0x16B59)
        || (0x16D70 <= v && v <= 0x16D79)
        || (0x1CCF0 <= v && v <= 0x1CCF9)
        || (0x1D7CE <= v && v <= 0x1D7FF)
        || (0x1E140 <= v && v <= 0x1E149)
        || (0x1E2F0 <= v && v <= 0x1E2F9)
        || (0x1E4F0 <= v && v <= 0x1E4F9)
        || (0x1E5F1 <= v && v <= 0x1E5FA)
        || (0x1E950 <= v && v <= 0x1E959)
        || (0x1FBF0 <= v && v <= 0x1FBF9)
}

/// Whether `c` is an ASCII letter or decimal digit.
fn is_alnum_char(c: char) -> (b: bool)
    ensures
        b == is_alnum(c),
{
    is_ascii_digit_char(c) || ('a' <= c && c <= 'z') || ('A' <= c && c <= 'Z')
}

/// Length of the run of digits that ends `chars`.
pub fn trailing_digits(chars: &Vec<char>) -> (k: usize)
    ensures
        k == digit_run(chars@),
        k <= chars.len(),
{
    let n: usize = chars.len();
    let mut k: usize = 0;
    proof {
        assert(chars@.take(n as int) =~= chars@);
    }
    while k < n && is_digit_char(chars[n - 1 - k])
        invariant
            n == chars.len(),
            k <= n,
            digit_run(chars@) == k + digit_run(chars@.take(n - k)),
        decreases n - k,
    {
        proof {
            assert(chars@.take(n - k).drop_last() =~= chars@.take(n - k - 1));
        }
        k = k + 1;
    }
    k
}

/// Tries the separator rule on the characters of a token.
pub fn match_separator(chars: &Vec<char>) -> (found: Option<Split>)
    ensures
        match found {
            Some(split) => separator_split(chars@) == Some(
                (split.identifier_end as int, split.digits_start as int),
            ),
            None => separator_split(chars@) is None,
        },
{
    let n: usize = chars.len();
    let k: usize = trailing_digits(chars);
    if k < 1 || n - k < 2 || chars[n - k - 1] != 'x' {
        return None;
    }
    Some(Split { identifier_end: n - k - 1, digits_start: n - k })
}

/// Tries the suffix rule on the characters of a token.
pub fn match_suffix(chars: &Vec<char>) -> (found: Option<Split>)
    ensures
        match found {
            Some(split) => suffix_split(chars@) == Some(
                (split.identifier_end as int, split.digits_start as int),
            ),
            None => suffix_split(chars@) is None,
        },
{
    let n: usize = chars.len();
    let k: usize = trailing_digits(chars);
    if k < 1 || k >= n {
        return None;
    }
    let end: usize = n - k;
    let mut i: usize = 0;
    while i < end
        invariant
            i <= end <= chars.len(),
            end == chars.len() - digit_run(chars@),
            forall|j: int| 0 <= j < i ==> is_alnum(#[trigger] chars[j]),
        decreases end - i,
    {
        if !is_alnum_char(chars[i]) {
            assert(!is_alnum(chars@[i as int]));
            return None;
        }
        i = i + 1;
    }
    Some(Split { identifier_end: end, digits_start: end })
}

/// Tries the two rules in order.
pub fn match_token(chars: &Vec<char>) -> (found: Option<Split>)
    ensures
        match found {
            Some(split) => token_split(chars@) == Some(
                (split.identifier_end as int, split.digits_start as int),
            ),
            None => token_split(chars@) is None,
        },
{
    match match_separator(chars) {
        Some(split) => Some(split),
        None => match_suffix(chars),
    }
}

/// A prefix of a digit sequence never denotes more than the whole.
proof fn lemma_value_grows(s: Seq<char>, i: int)
    requires
        0 <= i <= s.len(),
    ensures
        digits_value(s.take(i)) <= digits_value(s),
    decreases s.len() - i,
{
    if i < s.len() {
        lemma_value_grows(s, i + 1);
        assert(s.take(i + 1).drop_last() =~= s.take(i));
    } else {
        assert(s.take(i) =~= s);
    }
}

/// Whether every character from `start` on is a digit.
fn all_digits_from(chars: &Vec<char>, start: usize) -> (b: bool)
    requires
        start <= chars.len(),
    ensures
        b == (forall|i: int| start <= i < chars.len() ==> is_digit(chars[i])),
{
    let mut i: usize = start;
    while i < chars.len()
        invariant
            start <= i <= chars.len(),
            forall|j: int| start <= j < i ==> is_digit(chars[j]),
        decreases chars.len() - i,
    {
        if !is_digit_char(chars[i]) {
            return false;
        }
        i = i + 1;
    }
    true
}

/// Reads the characters from `start` on as a number; `None` if one of them
/// is no ASCII digit or the number exceeds the unsigned 32-bit range.
fn read_quantity(chars: &Vec<char>, start: usize) -> (quantity: Option<u32>)
    requires
        start <= chars.len(),
    ensures
        match quantity {
            Some(q) => all_ascii_digits(chars@.skip(start as int)) && q == digits_value(
                chars@.skip(start as int),
            ),
            None => !all_ascii_digits(chars@.skip(start as int)) || digits_value(
                chars@.skip(start as int),
            ) > u32::MAX,
        },
{
    let ghost digits = chars@.skip(start as int);
    let mut i: usize = start;
    while i < chars.len()
        invariant
            start <= i <= chars.len(),
            digits == chars@.skip(start as int),
            forall|j: int| 0 <= j < i - start ==> is_ascii_digit(#[trigger] digits[j]),
        decreases chars.len() - i,
    {
        if !is_ascii_digit_char(chars[i]) {
            assert(!is_ascii_digit(digits[i - start]));
            return None;
        }
        i = i + 1;
    }
    let mut value: u64 = 0;
    i = start;
    while i < chars.len()
        invariant
            start <= i <= chars.len(),
            digits == chars@.skip(start as int),
            all_ascii_digits(digits),
            value == digits_value(digits.take(i - start)),
            value <= u32::MAX,
        decreases chars.len() - i,
    {
        let c: char = chars[i];
        proof {
            assert(is_ascii_digit(digits[i - start]));
            assert(digits.take(i - start + 1).drop_last() =~= digits.take(i - start));
            assert(digits.take(i - start + 1).last() == c);
        }
        let digit: u64 = (c as u32 - '0' as u32) as u64;
        let next: u64 = value * 10 + digit;
        if next > 0xFFFF_FFFF {
            proof {
                lemma_value_grows(digits, i - start + 1);
            }
            return None;
        }
        value = next;
        i = i + 1;
    }
    proof {
        assert(digits.take(i - start) =~= digits);
    }
    Some(value as u32)
}

impl ParseError {
    /// The characters of the token that was refused.
    pub open spec fn refused(&self) -> Seq<char> {
        match *self {
            ParseError::InvalidQuantity(t) => t@,
            ParseError::MalformedToken(t) => t@,
        }
    }

    /// The token that was refused.
    pub fn token(&self) -> (token: &String)
        ensures
            token@ == self.refused(),
    {
        match self {
            ParseError::InvalidQuantity(t) => t,
            ParseError::MalformedToken(t) => t,
        }
    }

    /// A message for the user that names the refused token.
    pub fn message(&self) -> (text: String)
        ensures
            text@ == match *self {
                ParseError::InvalidQuantity(t) => "Qty must be integer: "@ + t@,
                ParseError::MalformedToken(t) => "Format error: "@ + t@,
            },
    {
        match self {
            ParseError::InvalidQuantity(t) => String::from_str("Qty must be integer: ").concat(
                t.as_str(),
            ),
            ParseError::MalformedToken(t) => String::from_str("Format error: ").concat(t.as_str()),
        }
    }
}

/// Reads a token along a given split.
///
/// The split is refused as malformed unless it fits the token; the quantity
/// is refused as invalid if its digits are not all ASCII digits or denote
/// more than `u32::MAX`.
pub fn decode_split(token: &str, split: Split) -> (parts: Result<(String, u32), ParseError>)
    ensures
        match parts {
            Ok((identifier, quantity)) => {
                &&& split_fits(token@, split)
                &&& identifier@ == token@.take(split.identifier_end as int)
                &&& all_ascii_digits(token@.skip(split.digits_start as int))
                &&& quantity == digits_value(token@.skip(split.digits_start as int))
            },
            Err(ParseError::MalformedToken(t)) => t@ == token@ && !split_fits(token@, split),
            Err(ParseError::InvalidQuantity(t)) => {
                &&& t@ == token@
                &&& split_fits(token@, split)
                &&& (!all_ascii_digits(token@.skip(split.digits_start as int)) || digits_value(
                    token@.skip(split.digits_start as int),
                ) > u32::MAX)
            },
        },
{
    let chars = chars_of(token);
    if split.identifier_end == 0 || split.identifier_end > split.digits_start
        || split.digits_start >= chars.len() {
        return Err(ParseError::MalformedToken(token.to_owned()));
    }
    if !all_digits_from(&chars, split.digits_start) {
        return Err(ParseError::MalformedToken(token.to_owned()));
    }
    match read_quantity(&chars, split.digits_start) {
        Some(quantity) => {
            let identifier = token.substring_char(0, split.identifier_end).to_owned();
            Ok((identifier, quantity))
        },
        None => Err(ParseError::InvalidQuantity(token.to_owned())),
    }
}

/// The digits behind a split found by one of the two rules are digits.
proof fn lemma_rule_split_fits(s: Seq<char>)
    requires
        token_split(s) is Some,
    ensures
        token_split(s) matches Some((end, start)) && 0 < end <= start < s.len() && (forall|
            i: int,
        |
            start <= i < s.len() ==> is_digit(s[i])),
{
    lemma_digit_run_digits(s);
}

/// The last `digit_run(s)` characters of `s` are digits.
proof fn lemma_digit_run_digits(s: Seq<char>)
    ensures
        digit_run(s) <= s.len(),
        forall|i: int| s.len() - digit_run(s) <= i < s.len() ==> is_digit(s[i]),
    decreases s.len(),
{
    if s.len() > 0 && is_digit(s.last()) {
        let head = s.drop_last();
        lemma_digit_run_digits(head);
        assert forall|i: int| s.len() - digit_run(s) <= i < s.len() implies is_digit(s[i]) by {
            if i < s.len() - 1 {
                assert(head[i] == s[i]);
            }
        }
    }
}

/// Reads one token as an identifier and a quantity.
///
/// Fails only where the quantity cannot be read or denotes more than
/// `u32::MAX`, and never with a malformed token: the rules always determine
/// the split.
pub fn parse_token(token: &str) -> (parts: Result<(String, u32), ParseError>)
    ensures
        match parts {
            Ok((identifier, quantity)) => {
                &&& token_readable(token@)
                &&& identifier@ == token_identifier(token@)
                &&& quantity == token_quantity(token@)
            },
            Err(ParseError::InvalidQuantity(t)) => t@ == token@ && (!token_readable(token@)
                || token_quantity(token@) > u32::MAX),
            Err(ParseError::MalformedToken(_)) => false,
        },
{
    let chars = chars_of(token);
    match match_token(&chars) {
        Some(split) => {
            proof {
                lemma_rule_split_fits(token@);
            }
            decode_split(token, split)
        },
        None => Ok((token.to_owned(), 1)),
    }
}

} // verus!
