//! Decimal numbers: reading command-line values and writing file names.
use vstd::prelude::*;
use crate::text::{chars_of, string_of, owned};

verus! {

pub open spec fn is_digit(c: char) -> bool {
    '0' <= c && c <= '9'
}

pub open spec fn digit_value(c: char) -> nat {
    (c as int - '0' as int) as nat
}

/// The number that the decimal digits `d` spell.
pub open spec fn digits_value(d: Seq<char>) -> nat
    decreases d.len(),
{
    if d.len() == 0 {
        0
    } else {
        digits_value(d.drop_last()) * 10 + digit_value(d.last())
    }
}

/// The digits of a decimal number as `str::parse` reads an unsigned integer:
/// an optional `+`, then at least one digit.
pub open spec fn unsigned_digits(s: Seq<char>) -> Seq<char> {
    if s.len() >= 1 && s[0] == '+' {
        s.drop_first()
    } else {
        s
    }
}

/// The unsigned integer that `s` spells when it is at most `max`, as
/// `str::parse` reads it into a type whose largest value is `max`.
pub open spec fn parse_unsigned_spec(s: Seq<char>, max: nat) -> Option<nat> {
    let d = unsigned_digits(s);
    if d.len() > 0 && (forall|i: int| 0 <= i < d.len() ==> is_digit(#[trigger] d[i]))
        && digits_value(d) <= max {
        Some(digits_value(d))
    } else {
        None
    }
}

proof fn lemma_digits_value_grows(d: Seq<char>, i: int)
    requires
        0 <= i <= d.len(),
    ensures
        digits_value(d.take(i)) <= digits_value(d),
    decreases d.len() - i,
{
    if i < d.len() {
        lemma_digits_value_grows(d, i + 1);
        assert(d.take(i + 1).drop_last() == d.take(i));
    } else {
        assert(d.take(i) == d);
    }
}

/// Reads an unsigned decimal integer no greater than `max`.
pub fn parse_unsigned(s: &str, max: u64) -> (r: Option<u64>)
    ensures
        r matches Some(v) ==> parse_unsigned_spec(s@, max as nat) == Some(v as nat),
        r is None ==> parse_unsigned_spec(s@, max as nat) is None,
{
    let characters = chars_of(s);
    let start: usize = if characters.len() >= 1 && characters[0] == '+' { 1 } else { 0 };
    let ghost d = unsigned_digits(s@);
    assert(d == characters@.subrange(start as int, characters@.len() as int));
    if start >= characters.len() {
        return None;
    }
    let mut value: u64 = 0;
    let mut i = start;
    while i < characters.len()
        invariant
            characters@ == s@,
            d == unsigned_digits(s@),
            start <= i <= characters@.len(),
            d == characters@.subrange(start as int, characters@.len() as int),
            forall|j: int| 0 <= j < i - start ==> is_digit(#[trigger] d[j]),
            value as nat == digits_value(d.take(i - start)),
            value <= max,
        decreases characters.len() - i,
    {
        let c = characters[i];
        assert(d[i - start] == c);
        if !('0' <= c && c <= '9') {
            assert(!is_digit(d[i - start]));
            return None;
        }
        let digit: u64 = (c as u32 - '0' as u32) as u64;
        assert(d.take(i - start + 1).drop_last() == d.take(i - start));
        if value > max / 10 || digit > max - value * 10 {
            proof {
                assert(digits_value(d.take(i - start + 1)) > max) by (nonlinear_arith)
                    requires
                        digits_value(d.take(i - start + 1)) == value * 10 + digit,
                        value > max / 10 || digit > max - value * 10,
                        value <= max / 10 ==> value * 10 <= max,
                ;
                lemma_digits_value_grows(d, i - start + 1);
            }
            return None;
        }
        value = value * 10 + digit;
        i += 1;
    }
    assert(d.take(d.len() as int) == d);
    Some(value)
}

pub open spec fn positive_integer_error() -> Seq<char> {
    "unit must be a positive integer"@
}

pub open spec fn unit_range_error() -> Seq<char> {
    "unit must be between 1 and 10000 ms"@
}

pub open spec fn unit_zero_error() -> Seq<char> {
    "unit must be greater than zero"@
}

/// Reads a Morse unit for translation and real-time keying: a whole number
/// of milliseconds from 1 to 10000.
pub fn positive_unit(value: &str) -> (r: Result<u32, String>)
    ensures
        match parse_unsigned_spec(value@, u32::MAX as nat) {
            None => r matches Err(m) && m@ == positive_integer_error(),
            Some(v) => if 1 <= v <= 10_000 {
                r == Ok::<u32, String>(v as u32)
            } else {
                r matches Err(m) && m@ == unit_range_error()
            },
        },
{
    let parsed = match parse_unsigned(value, u32::MAX as u64) {
        Some(v) => v as u32,
        None => {
            return Err(owned("unit must be a positive integer"));
        },
    };
    if 1 <= parsed && parsed <= 10_000 {
        Ok(parsed)
    } else {
        Err(owned("unit must be between 1 and 10000 ms"))
    }
}

/// Reads a Morse unit for the keyboard debugger: a positive whole number of
/// milliseconds.
pub fn parse_positive_u64(value: &str) -> (r: Result<u64, String>)
    ensures
        match parse_unsigned_spec(value@, u64::MAX as nat) {
            None => r matches Err(m) && m@ == positive_integer_error(),
            Some(v) => if v == 0 {
                r matches Err(m) && m@ == unit_zero_error()
            } else {
                r == Ok::<u64, String>(v as u64)
            },
        },
{
    let value = match parse_unsigned(value, u64::MAX) {
        Some(v) => v,
        None => {
            return Err(owned("unit must be a positive integer"));
        },
    };
    if value == 0 {
        Err(owned("unit must be greater than zero"))
    } else {
        Ok(value)
    }
}

pub open spec fn digit_char(d: nat) -> char {
    ('0' as nat + d) as char
}

/// The decimal digits of `n`, without leading zeros.
pub open spec fn decimal(n: nat) -> Seq<char>
    decreases n,
{
    if n < 10 {
        seq![digit_char(n)]
    } else {
        decimal(n / 10).push(digit_char(n % 10))
    }
}

fn push_decimal(out: &mut Vec<char>, n: u128)
    ensures
        final(out)@ == old(out)@ + decimal(n as nat),
    decreases n,
{
    if n >= 10 {
        push_decimal(out, n / 10);
    }
    let d = (n % 10) as u8;
    out.push((48u8 + d) as char);
    proof {
        if n >= 10 {
            assert(decimal(n as nat) == decimal((n / 10) as nat).push(digit_char((n % 10) as nat)));
        }
    }
    assert(final(out)@ =~= old(out)@ + decimal(n as nat));
}

/// The default audio file for a message made at `timestamp_ms` milliseconds
/// after the Unix epoch: `audio/morse-<timestamp>.ogg`.
pub fn output_path_for(timestamp_ms: u128) -> (r: String)
    ensures
        r@ == "audio/morse-"@ + decimal(timestamp_ms as nat) + ".ogg"@,
{
    let mut out = chars_of("audio/morse-");
    push_decimal(&mut out, timestamp_ms);
    let suffix = chars_of(".ogg");
    let ghost mid = out@;
    for i in 0..suffix.len()
        invariant
            out@ == mid + suffix@.take(i as int),
    {
        out.push(suffix[i]);
        assert(suffix@.take(i + 1) == suffix@.take(i as int).push(suffix@[i as int]));
    }
    assert(suffix@.take(suffix.len() as int) == suffix@);
    string_of(&out)
}

} // verus!
