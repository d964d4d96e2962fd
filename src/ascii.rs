//! ASCII character predicates, and parsers built from them.
use vstd::prelude::*;

use crate::bounded::discard;
use crate::input::{Input, ParseResult};
use crate::parsers::{lemma_run_len, take_run, ParseError, Parser, Satisfy, TakeWhile, TakeWhile1};

verus! {

pub open spec fn spec_is_lowercase(c: u8) -> bool {
    97 <= c <= 122
}

pub open spec fn spec_is_uppercase(c: u8) -> bool {
    65 <= c <= 90
}

pub open spec fn spec_is_whitespace(c: u8) -> bool {
    (9 <= c <= 13) || c == 32
}

pub open spec fn spec_is_horizontal_space(c: u8) -> bool {
    c == 9 || c == 32
}

pub open spec fn spec_is_end_of_line(c: u8) -> bool {
    c == 10 || c == 13
}

pub open spec fn spec_is_digit(c: u8) -> bool {
    48 <= c <= 57
}

pub open spec fn spec_is_alpha(c: u8) -> bool {
    spec_is_lowercase(c) || spec_is_uppercase(c)
}

pub open spec fn spec_is_alphanumeric(c: u8) -> bool {
    spec_is_alpha(c) || spec_is_digit(c)
}

/// Lowercase ASCII predicate.
pub fn is_lowercase(c: u8) -> (r: bool)
    ensures
        r == spec_is_lowercase(c),
{
    0x61 <= c && c <= 0x7a
}

/// Uppercase ASCII predicate.
pub fn is_uppercase(c: u8) -> (r: bool)
    ensures
        r == spec_is_uppercase(c),
{
    0x41 <= c && c <= 0x5a
}

/// ASCII whitespace: tab, line feed, vertical tab, form feed, carriage
/// return and space.
pub fn is_whitespace(c: u8) -> (r: bool)
    ensures
        r == spec_is_whitespace(c),
{
    9 <= c && c <= 13 || c == 0x20
}

/// Space or horizontal tab.
pub fn is_horizontal_space(c: u8) -> (r: bool)
    ensures
        r == spec_is_horizontal_space(c),
{
    c == 0x09 || c == 0x20
}

/// Line feed or carriage return.
pub fn is_end_of_line(c: u8) -> (r: bool)
    ensures
        r == spec_is_end_of_line(c),
{
    c == 0x0a || c == 0x0d
}

/// ASCII digit predicate.
pub fn is_digit(c: u8) -> (r: bool)
    ensures
        r == spec_is_digit(c),
{
    0x30 <= c && c <= 0x39
}

/// ASCII alphabetic predicate.
pub fn is_alpha(c: u8) -> (r: bool)
    ensures
        r == spec_is_alpha(c),
{
    is_lowercase(c) || is_uppercase(c)
}

/// ASCII alphanumeric predicate.
pub fn is_alphanumeric(c: u8) -> (r: bool)
    ensures
        r == spec_is_alphanumeric(c),
{
    is_alpha(c) || is_digit(c)
}

/// A named character class, so that a parser can carry its predicate as data.
#[derive(Clone, Copy, Debug, PartialEq, Eq, Structural)]
pub enum CharClass {
    Lowercase,
    Uppercase,
    Whitespace,
    HorizontalSpace,
    EndOfLine,
    Digit,
    Alpha,
    Alphanumeric,
}

impl CharClass {
    pub open spec fn spec_contains(self, c: u8) -> bool {
        match self {
            CharClass::Lowercase => spec_is_lowercase(c),
            CharClass::Uppercase => spec_is_uppercase(c),
            CharClass::Whitespace => spec_is_whitespace(c),
            CharClass::HorizontalSpace => spec_is_horizontal_space(c),
            CharClass::EndOfLine => spec_is_end_of_line(c),
            CharClass::Digit => spec_is_digit(c),
            CharClass::Alpha => spec_is_alpha(c),
            CharClass::Alphanumeric => spec_is_alphanumeric(c),
        }
    }

    /// Whether `c` belongs to the class.
    pub fn contains(&self, c: u8) -> (r: bool)
        ensures
            r == self.spec_contains(c),
    {
        match self {
            CharClass::Lowercase => is_lowercase(c),
            CharClass::Uppercase => is_uppercase(c),
            CharClass::Whitespace => is_whitespace(c),
            CharClass::HorizontalSpace => is_horizontal_space(c),
            CharClass::EndOfLine => is_end_of_line(c),
            CharClass::Digit => is_digit(c),
            CharClass::Alpha => is_alpha(c),
            CharClass::Alphanumeric => is_alphanumeric(c),
        }
    }
}

/// The value of a run of decimal digits, most significant first.
pub open spec fn decimal_value(s: Seq<u8>) -> nat
    decreases s.len(),
{
    if s.len() == 0 {
        0
    } else {
        decimal_value(s.drop_last()) * 10 + (s.last() - 48) as nat
    }
}

pub open spec fn all_digits(s: Seq<u8>) -> bool {
    forall|k: int| 0 <= k < s.len() ==> spec_is_digit(#[trigger] s[k])
}

proof fn lemma_decimal_prefix_le(s: Seq<u8>, k: int)
    requires
        0 <= k <= s.len(),
        all_digits(s),
    ensures
        decimal_value(s.take(k)) <= decimal_value(s),
    decreases s.len() - k,
{
    if k < s.len() {
        lemma_decimal_prefix_le(s, k + 1);
        assert(s.take(k + 1).drop_last() =~= s.take(k));
        assert(spec_is_digit(s[k]));
        assert(decimal_value(s.take(k + 1)) == decimal_value(s.take(k)) * 10 + (s[k] - 48) as nat);
    } else {
        assert(s.take(k) =~= s);
    }
}

/// The value of `digits` as a `u64`, or `None` when it does not fit.
pub fn to_decimal_checked(digits: &[u8]) -> (r: Option<u64>)
    requires
        all_digits(digits@),
    ensures
        r == (if decimal_value(digits@) <= u64::MAX {
            Some(decimal_value(digits@) as u64)
        } else {
            None::<u64>
        }),
{
    let mut acc: u64 = 0;
    let mut k: usize = 0;
    assert(digits@.take(0) =~= Seq::<u8>::empty());
    while k < digits.len()
        invariant
            k <= digits@.len(),
            all_digits(digits@),
            acc == decimal_value(digits@.take(k as int)),
        decreases digits@.len() - k,
    {
        let d = digits[k];
        assert(digits@.take(k + 1).drop_last() =~= digits@.take(k as int));
        assert(spec_is_digit(digits@[k as int]));
        if acc > (u64::MAX - (d - 48) as u64) / 10 {
            proof {
                assert(decimal_value(digits@.take(k + 1)) > u64::MAX) by (nonlinear_arith)
                    requires
                        decimal_value(digits@.take(k + 1)) == acc * 10 + (d - 48) as nat,
                        acc > (u64::MAX - (d - 48) as u64) / 10,
                        0 <= d - 48 <= 9,
                ;
                lemma_decimal_prefix_le(digits@, k + 1);
            }
            return None;
        }
        proof {
            assert(acc * 10 + (d - 48) <= u64::MAX) by (nonlinear_arith)
                requires
                    acc <= (u64::MAX - (d - 48) as u64) / 10,
                    0 <= d - 48 <= 9,
            ;
        }
        acc = acc * 10 + (d - 48) as u64;
        k = k + 1;
    }
    assert(digits@.take(digits@.len() as int) =~= digits@);
    Some(acc)
}

/// The value of a run of decimal digits that fits in a `u64`.
pub fn to_decimal(digits: &[u8]) -> (r: u64)
    requires
        all_digits(digits@),
        decimal_value(digits@) <= u64::MAX,
    ensures
        r == decimal_value(digits@),
{
    match to_decimal_checked(digits) {
        Some(v) => v,
        None => 0,
    }
}

/// Skips a run of whitespace, possibly empty.
pub fn skip_whitespace(buf: &[u8], i: Input) -> (r: ParseResult<(), ParseError>)
    requires
        i.pos <= buf@.len(),
    ensures
        r == discard(take_run(buf@, i, CharClass::Whitespace)),
{
    match (TakeWhile { class: CharClass::Whitespace }).parse(buf, i) {
        ParseResult::Data(c, _) => ParseResult::Data(c, ()),
        ParseResult::Error(c, e) => ParseResult::Error(c, e),
        ParseResult::Incomplete(c, n) => ParseResult::Incomplete(c, n),
    }
}

/// Parses a single digit, returning its character code.
pub fn digit(buf: &[u8], i: Input) -> (r: ParseResult<u8, ParseError>)
    requires
        i.pos <= buf@.len(),
    ensures
        r == (Satisfy { class: CharClass::Digit }).outcome(buf@, i),
{
    (Satisfy { class: CharClass::Digit }).parse(buf, i)
}

/// The outcome of [`decimal`]: a non-empty run of digits and its value, or
/// an overflow error at the start of the run when the value does not fit.
pub open spec fn decimal_run(buf: Seq<u8>, i: Input) -> ParseResult<u64, ParseError> {
    match (TakeWhile1 { class: CharClass::Digit }).outcome(buf, i) {
        ParseResult::Data(c, s) => if decimal_value(s) <= u64::MAX {
            ParseResult::Data(c, decimal_value(s) as u64)
        } else {
            ParseResult::Error(i, ParseError::Overflow)
        },
        ParseResult::Error(c, e) => ParseResult::Error(c, e),
        ParseResult::Incomplete(c, n) => ParseResult::Incomplete(c, n),
    }
}

/// Parses a run of decimal digits into a `u64`.
pub fn decimal(buf: &[u8], i: Input) -> (r: ParseResult<u64, ParseError>)
    requires
        i.pos <= buf@.len(),
    ensures
        r == decimal_run(buf@, i),
        i.pos <= r.spec_input().pos <= buf@.len(),
        r.spec_input().end == i.end,
{
    let p = TakeWhile1 { class: CharClass::Digit };
    match p.parse(buf, i) {
        ParseResult::Data(c, s) => {
            proof {
                lemma_run_len(buf@, CharClass::Digit, i.pos as int);
                assert(s.deep_view() =~= s@);
                assert(all_digits(s@));
            }
            match to_decimal_checked(s.as_slice()) {
                Some(v) => ParseResult::Data(c, v),
                None => ParseResult::Error(i, ParseError::Overflow),
            }
        },
        ParseResult::Error(c, e) => ParseResult::Error(c, e),
        ParseResult::Incomplete(c, n) => ParseResult::Incomplete(c, n),
    }
}

/// [`decimal`] as a parser value.
#[derive(Clone, Copy, Debug)]
pub struct Decimal;

impl Parser for Decimal {
    type Output = u64;
    type Error = ParseError;

    open spec fn outcome(&self, buf: Seq<u8>, i: Input) -> ParseResult<u64, ParseError> {
        decimal_run(buf, i)
    }

    proof fn lemma_outcome(&self, buf: Seq<u8>, i: Input) {
        (TakeWhile1 { class: CharClass::Digit }).lemma_outcome(buf, i);
    }

    fn parse(&self, buf: &[u8], i: Input) -> (r: ParseResult<u64, ParseError>) {
        decimal(buf, i)
    }
}

/// A magnitude read by a number parser, given a sign: `n` or `-n`, or an
/// overflow error at `i` when that does not fit in an `i64`.
pub open spec fn apply_sign(r: ParseResult<u64, ParseError>, negative: bool, i: Input) -> ParseResult<i64, ParseError> {
    match r {
        ParseResult::Data(c, n) => if negative {
            if n <= 0x8000_0000_0000_0000 {
                ParseResult::Data(c, (0 - n) as i64)
            } else {
                ParseResult::Error(i, ParseError::Overflow)
            }
        } else {
            if n <= 0x7fff_ffff_ffff_ffff {
                ParseResult::Data(c, n as i64)
            } else {
                ParseResult::Error(i, ParseError::Overflow)
            }
        },
        ParseResult::Error(c, e) => ParseResult::Error(c, e),
        ParseResult::Incomplete(c, n) => ParseResult::Incomplete(c, n),
    }
}

/// The outcome of [`signed`]: an optional leading `+` or `-`, then `f`. With
/// no item to look at before end of input, more items are requested.
pub open spec fn signed_run<F: Parser<Output = u64, Error = ParseError>>(f: F, buf: Seq<u8>, i: Input) -> ParseResult<
    i64,
    ParseError,
> {
    if i.pos >= buf.len() {
        if i.end {
            apply_sign(f.outcome(buf, i), false, i)
        } else {
            ParseResult::Incomplete(i, 1)
        }
    } else if buf[i.pos as int] == 0x2d {
        apply_sign(f.outcome(buf, Input { pos: (i.pos + 1) as usize, end: i.end }), true, i)
    } else if buf[i.pos as int] == 0x2b {
        apply_sign(f.outcome(buf, Input { pos: (i.pos + 1) as usize, end: i.end }), false, i)
    } else {
        apply_sign(f.outcome(buf, i), false, i)
    }
}

/// Parses a number with an optional leading `+` or `-`, reading the
/// magnitude with `f`.
pub fn signed<F: Parser<Output = u64, Error = ParseError>>(buf: &[u8], i: Input, f: F) -> (r: ParseResult<
    i64,
    ParseError,
>)
    requires
        i.pos <= buf@.len(),
    ensures
        r == signed_run(f, buf@, i),
{
    let (start, negative) = if i.pos >= buf.len() {
        if !i.end {
            return ParseResult::Incomplete(i, 1);
        }
        (i, false)
    } else if buf[i.pos] == 0x2d {
        (Input { pos: i.pos + 1, end: i.end }, true)
    } else if buf[i.pos] == 0x2b {
        (Input { pos: i.pos + 1, end: i.end }, false)
    } else {
        (i, false)
    };
    match f.parse(buf, start) {
        ParseResult::Data(c, n) => {
            if negative {
                if n <= 0x8000_0000_0000_0000u64 {
                    let v: i64 = if n == 0x8000_0000_0000_0000u64 {
                        i64::MIN
                    } else {
                        -(n as i64)
                    };
                    ParseResult::Data(c, v)
                } else {
                    ParseResult::Error(i, ParseError::Overflow)
                }
            } else {
                if n <= 0x7fff_ffff_ffff_ffffu64 {
                    ParseResult::Data(c, n as i64)
                } else {
                    ParseResult::Error(i, ParseError::Overflow)
                }
            }
        },
        ParseResult::Error(c, e) => ParseResult::Error(c, e),
        ParseResult::Incomplete(c, n) => ParseResult::Incomplete(c, n),
    }
}

} // verus!
