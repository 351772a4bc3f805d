//! Telling Morse from text, and translating either way.
use vstd::prelude::*;
use crate::text::{is_ascii_ws, ascii_ws, is_ascii_alnum, ascii_alnum, trimmed, trim_bounds, chars_of, owned};
use crate::decode::{decode_spec, decode_morse};
use crate::encode::{encode_spec, encode_text, first_unsupported, unsupported_error};

verus! {

/// What an input is written in.
#[derive(Debug, Clone, Copy, PartialEq, Eq, Structural)]
pub enum InputKind {
    Text,
    Morse,
}

/// Characters that may appear in Morse input: the Morse symbols, space, tab,
/// carriage return and line feed.
pub open spec fn is_morse_char(c: char) -> bool {
    c == '.' || c == '·' || c == '-' || c == '_' || c == '/' || c == ' ' || c == '\t' || c == '\r'
        || c == '\n'
}

/// Characters that may appear in text input.
pub open spec fn is_text_char(c: char) -> bool {
    is_ascii_alnum(c) || is_ascii_ws(c)
}

pub open spec fn empty_input_error() -> Seq<char> {
    "input is empty"@
}

pub open spec fn charset_error() -> Seq<char> {
    "input must contain either Morse symbols (., ·, -, _, /) or English letters and digits"@
}

/// What `detect_input` makes of `s`: empty once trimmed, Morse when every
/// character left is a Morse symbol, space, tab, carriage return or line feed, text when every one is an
/// ASCII letter, digit or whitespace, and otherwise neither.
pub open spec fn detect_spec(s: Seq<char>) -> Result<InputKind, Seq<char>> {
    let t = trimmed(s);
    if t.len() == 0 {
        Err(empty_input_error())
    } else if forall|i: int| 0 <= i < t.len() ==> is_morse_char(#[trigger] t[i]) {
        Ok(InputKind::Morse)
    } else if forall|i: int| 0 <= i < t.len() ==> is_text_char(#[trigger] t[i]) {
        Ok(InputKind::Text)
    } else {
        Err(charset_error())
    }
}

fn morse_char(c: char) -> (r: bool)
    ensures
        r == is_morse_char(c),
{
    c == '.' || c == '·' || c == '-' || c == '_' || c == '/' || c == ' ' || c == '\t' || c == '\r'
        || c == '\n'
}

/// Tells whether `input` is Morse or English text.
pub fn detect_input(input: &str) -> (r: Result<InputKind, String>)
    ensures
        match detect_spec(input@) {
            Ok(k) => r == Ok::<InputKind, String>(k),
            Err(e) => r matches Err(m) && m@ == e,
        },
{
    let characters = chars_of(input);
    let (start, end) = trim_bounds(&characters);
    let ghost t = trimmed(characters@);
    if start == end {
        return Err(owned("input is empty"));
    }
    let mut all_morse = true;
    let mut all_text = true;
    let mut i = start;
    while i < end
        invariant
            start <= i <= end <= characters@.len(),
            t == characters@.subrange(start as int, end as int),
            all_morse == (forall|j: int| 0 <= j < i - start ==> is_morse_char(#[trigger] t[j])),
            all_text == (forall|j: int| 0 <= j < i - start ==> is_text_char(#[trigger] t[j])),
        decreases end - i,
    {
        let c = characters[i];
        assert(t[i - start] == c);
        if !morse_char(c) {
            all_morse = false;
        }
        if !(ascii_alnum(c) || ascii_ws(c)) {
            all_text = false;
        }
        i += 1;
    }
    if all_morse {
        Ok(InputKind::Morse)
    } else if all_text {
        Ok(InputKind::Text)
    } else {
        Err(owned("input must contain either Morse symbols (., ·, -, _, /) or English letters and digits"))
    }
}

/// What `translate` gives for `s`: the kind of input, the translation, and
/// the Morse to sound out (for Morse input, the decoded text encoded again).
pub open spec fn translate_spec(s: Seq<char>) -> Result<(InputKind, Seq<char>, Seq<char>), Seq<char>> {
    match detect_spec(s) {
        Err(e) => Err(e),
        Ok(InputKind::Text) => match first_unsupported(s) {
            Some(c) => Err(unsupported_error(c)),
            None => Ok((InputKind::Text, encode_spec(s), encode_spec(s))),
        },
        Ok(InputKind::Morse) => match decode_spec(s) {
            Err(e) => Err(e),
            Ok(text) => match first_unsupported(text) {
                Some(c) => Err(unsupported_error(c)),
                None => Ok((InputKind::Morse, text, encode_spec(text))),
            },
        },
    }
}

/// Translates text to Morse or Morse to text, and gives the Morse to sound out.
pub fn translate(input: &str) -> (r: Result<(InputKind, String, String), String>)
    ensures
        match translate_spec(input@) {
            Ok((k, a, b)) => r matches Ok((k2, a2, b2)) && k2 == k && a2@ == a && b2@ == b,
            Err(e) => r matches Err(m) && m@ == e,
        },
{
    match detect_input(input)? {
        InputKind::Text => {
            let morse = encode_text(input)?;
            Ok((InputKind::Text, morse.clone(), morse))
        },
        InputKind::Morse => {
            let text = decode_morse(input)?;
            let canonical_morse = encode_text(text.as_str())?;
            Ok((InputKind::Morse, text, canonical_morse))
        },
    }
}

} // verus!
