//! Decimal integer parsing with the same acceptance and the same error kinds
//! as `str::parse` for `u32` and `i32`.
use vstd::prelude::*;

verus! {

/// Why a string is not a decimal integer of the target type.
#[derive(Debug, Clone, Copy, PartialEq, Eq, Structural)]
pub enum IntParseError {
    /// The string is empty.
    Empty,
    /// A char other than a decimal digit, or a lone sign.
    InvalidDigit,
    /// The number is above the type's maximum.
    PosOverflow,
    /// The number is below the type's minimum.
    NegOverflow,
}

/// The message shown for a parse failure, the one `std::num::ParseIntError` shows.
pub open spec fn parse_error_text(e: IntParseError) -> Seq<char> {
    match e {
        IntParseError::Empty => "cannot parse integer from empty string"@,
        IntParseError::InvalidDigit => "invalid digit found in string"@,
        IntParseError::PosOverflow => "number too large to fit in target type"@,
        IntParseError::NegOverflow => "number too small to fit in target type"@,
    }
}

impl IntParseError {
    /// The message for this failure.
    pub fn message(&self) -> (s: String)
        ensures
            s@ == parse_error_text(*self),
    {
        match self {
            IntParseError::Empty => "cannot parse integer from empty string".to_owned(),
            IntParseError::InvalidDigit => "invalid digit found in string".to_owned(),
            IntParseError::PosOverflow => "number too large to fit in target type".to_owned(),
            IntParseError::NegOverflow => "number too small to fit in target type".to_owned(),
        }
    }
}

/// `c` is one of the decimal digits `'0'..='9'`.
pub open spec fn is_decimal_digit(c: char) -> bool {
    '0' <= c && c <= '9'
}

/// The value of the decimal digit `c`.
pub open spec fn digit_value(c: char) -> int {
    c as int - '0' as int
}

/// Reads the digits `ds` left to right onto `acc`, adding them (or subtracting
/// them when `negative`), and stops at the first char that is not a digit or
/// the first step that leaves `[min, max]`.
pub open spec fn accumulate_digits(
    ds: Seq<char>,
    acc: int,
    negative: bool,
    min: int,
    max: int,
) -> Result<int, IntParseError>
    decreases ds.len(),
{
    if ds.len() == 0 {
        Ok(acc)
    } else if !is_decimal_digit(ds[0]) {
        Err(IntParseError::InvalidDigit)
    } else if negative {
        let v = acc * 10 - digit_value(ds[0]);
        if v < min {
            Err(IntParseError::NegOverflow)
        } else {
            accumulate_digits(ds.skip(1), v, negative, min, max)
        }
    } else {
        let v = acc * 10 + digit_value(ds[0]);
        if v > max {
            Err(IntParseError::PosOverflow)
        } else {
            accumulate_digits(ds.skip(1), v, negative, min, max)
        }
    }
}

/// The result of parsing `s` as a decimal integer of a type with range
/// `[min, max]`: an optional `'+'` (or, for a signed type, `'-'`), then one or
/// more digits.
pub open spec fn parse_integer(s: Seq<char>, signed: bool, min: int, max: int) -> Result<
    int,
    IntParseError,
> {
    if s.len() == 0 {
        Err(IntParseError::Empty)
    } else if s.len() == 1 && (s[0] == '+' || s[0] == '-') {
        Err(IntParseError::InvalidDigit)
    } else if s[0] == '+' {
        accumulate_digits(s.skip(1), 0, false, min, max)
    } else if s[0] == '-' && signed {
        accumulate_digits(s.skip(1), 0, true, min, max)
    } else {
        accumulate_digits(s, 0, false, min, max)
    }
}

/// Digits that accumulate without error are all decimal digits.
proof fn lemma_accumulated_are_digits(ds: Seq<char>, acc: int, negative: bool, min: int, max: int)
    requires
        accumulate_digits(ds, acc, negative, min, max) is Ok,
    ensures
        forall|i: int| 0 <= i < ds.len() ==> is_decimal_digit(#[trigger] ds[i]),
    decreases ds.len(),
{
    if ds.len() > 0 {
        let v = if negative {
            acc * 10 - digit_value(ds[0])
        } else {
            acc * 10 + digit_value(ds[0])
        };
        lemma_accumulated_are_digits(ds.skip(1), v, negative, min, max);
        assert forall|i: int| 0 <= i < ds.len() implies is_decimal_digit(#[trigger] ds[i]) by {
            if i > 0 {
                assert(ds[i] == ds.skip(1)[i - 1]);
            }
        }
    }
}

/// A string that parses as an integer holds decimal digits only, after an
/// optional leading sign.
pub proof fn lemma_parsed_chars(s: Seq<char>, signed: bool, min: int, max: int)
    requires
        parse_integer(s, signed, min, max) is Ok,
    ensures
        forall|i: int|
            0 <= i < s.len() ==> is_decimal_digit(#[trigger] s[i]) || (i == 0 && (s[i] == '+'
                || s[i] == '-')),
{
    if s[0] == '+' || (s[0] == '-' && signed) {
        lemma_accumulated_are_digits(s.skip(1), 0, s[0] == '-', min, max);
        assert forall|i: int| 0 < i < s.len() implies is_decimal_digit(#[trigger] s[i]) by {
            assert(s[i] == s.skip(1)[i - 1]);
        }
    } else {
        lemma_accumulated_are_digits(s, 0, false, min, max);
    }
}

/// `s` parsed as a `u32`.
pub open spec fn spec_parse_u32(s: Seq<char>) -> Result<int, IntParseError> {
    parse_integer(s, false, 0, u32::MAX as int)
}

/// `s` parsed as an `i32`.
pub open spec fn spec_parse_i32(s: Seq<char>) -> Result<int, IntParseError> {
    parse_integer(s, true, i32::MIN as int, i32::MAX as int)
}

/// Each of `items` parsed as an `i32`, in order, or the error of the first one
/// that does not parse.
pub open spec fn parse_all_i32(items: Seq<Seq<char>>) -> Result<Seq<i32>, IntParseError>
    decreases items.len(),
{
    if items.len() == 0 {
        Ok(Seq::empty())
    } else {
        match parse_all_i32(items.drop_last()) {
            Err(e) => Err(e),
            Ok(vs) => match spec_parse_i32(items.last()) {
                Ok(v) => Ok(vs.push(v as i32)),
                Err(e) => Err(e),
            },
        }
    }
}

/// Parses `s` as a `u32`, as `s.parse::<u32>()` does.
pub fn parse_u32(s: &str) -> (r: Result<u32, IntParseError>)
    ensures
        match r {
            Ok(v) => spec_parse_u32(s@) == Ok::<int, IntParseError>(v as int),
            Err(e) => spec_parse_u32(s@) == Err::<int, IntParseError>(e),
        },
{
    let n = s.unicode_len();
    if n == 0 {
        return Err(IntParseError::Empty);
    }
    let first = s.get_char(0);
    if n == 1 && (first == '+' || first == '-') {
        return Err(IntParseError::InvalidDigit);
    }
    let start: usize = if first == '+' { 1 } else { 0 };
    assert(s@.skip(0) =~= s@);
    let mut acc: u64 = 0;
    let mut i = start;
    while i < n
        invariant
            n == s@.len(),
            start <= i <= n,
            acc <= u32::MAX,
            spec_parse_u32(s@) == accumulate_digits(s@.skip(i as int), acc as int, false, 0, u32::MAX as int),
        decreases n - i,
    {
        let c = s.get_char(i);
        assert(s@.skip(i as int)[0] == c);
        assert(s@.skip(i as int).skip(1) =~= s@.skip(i + 1));
        if !('0' <= c && c <= '9') {
            return Err(IntParseError::InvalidDigit);
        }
        let d = (c as u32 - '0' as u32) as u64;
        let v = acc * 10 + d;
        if v > u32::MAX as u64 {
            return Err(IntParseError::PosOverflow);
        }
        acc = v;
        i += 1;
    }
    assert(s@.skip(n as int) =~= Seq::<char>::empty());
    Ok(acc as u32)
}

/// Parses `s` as an `i32`, as `s.parse::<i32>()` does.
pub fn parse_i32(s: &str) -> (r: Result<i32, IntParseError>)
    ensures
        match r {
            Ok(v) => spec_parse_i32(s@) == Ok::<int, IntParseError>(v as int),
            Err(e) => spec_parse_i32(s@) == Err::<int, IntParseError>(e),
        },
{
    let n = s.unicode_len();
    if n == 0 {
        return Err(IntParseError::Empty);
    }
    let first = s.get_char(0);
    if n == 1 && (first == '+' || first == '-') {
        return Err(IntParseError::InvalidDigit);
    }
    let negative = first == '-';
    let start: usize = if first == '+' || first == '-' { 1 } else { 0 };
    assert(s@.skip(0) =~= s@);
    let mut acc: i64 = 0;
    let mut i = start;
    while i < n
        invariant
            n == s@.len(),
            start <= i <= n,
            i32::MIN <= acc <= i32::MAX,
            negative ==> acc <= 0,
            !negative ==> acc >= 0,
            spec_parse_i32(s@) == accumulate_digits(
                s@.skip(i as int),
                acc as int,
                negative,
                i32::MIN as int,
                i32::MAX as int,
            ),
        decreases n - i,
    {
        let c = s.get_char(i);
        assert(s@.skip(i as int)[0] == c);
        assert(s@.skip(i as int).skip(1) =~= s@.skip(i + 1));
        if !('0' <= c && c <= '9') {
            return Err(IntParseError::InvalidDigit);
        }
        let d = (c as u32 - '0' as u32) as i64;
        if negative {
            let v = acc * 10 - d;
            if v < i32::MIN as i64 {
                return Err(IntParseError::NegOverflow);
            }
            acc = v;
        } else {
            let v = acc * 10 + d;
            if v > i32::MAX as i64 {
                return Err(IntParseError::PosOverflow);
            }
            acc = v;
        }
        i += 1;
    }
    assert(s@.skip(n as int) =~= Seq::<char>::empty());
    Ok(acc as i32)
}

} // verus!
