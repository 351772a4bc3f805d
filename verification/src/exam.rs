//! Examination mode: what is compared, and what is counted.
use vstd::prelude::*;
use crate::text::{is_ascii_alnum, ascii_alnum, ascii_upper, to_ascii_upper, chars_of, string_of, owned};
use crate::decode::{decode_spec, decode_morse};
use crate::encode::{encode_spec, encode_text, first_unsupported, unsupported_error};

verus! {

/// The ASCII letters and digits of `s`, in upper case, in order.
pub open spec fn alnum_content(s: Seq<char>) -> Seq<char>
    decreases s.len(),
{
    if s.len() == 0 {
        Seq::empty()
    } else if is_ascii_alnum(s.last()) {
        alnum_content(s.drop_last()).push(ascii_upper(s.last()))
    } else {
        alnum_content(s.drop_last())
    }
}

/// A character that keys a Morse signal: `.`, `·`, `-` or `_`.
pub open spec fn is_signal_char(c: char) -> bool {
    c == '.' || c == '·' || c == '-' || c == '_'
}

/// The number of Morse signals in `s`.
pub open spec fn signal_count(s: Seq<char>) -> nat
    decreases s.len(),
{
    if s.len() == 0 {
        0
    } else if is_signal_char(s.last()) {
        signal_count(s.drop_last()) + 1
    } else {
        signal_count(s.drop_last())
    }
}

/// The ASCII letters and digits of `input`, in upper case: what an exam compares.
pub fn alphanumeric_content(input: &str) -> (r: String)
    ensures
        r@ == alnum_content(input@),
{
    let characters = chars_of(input);
    let mut out: Vec<char> = Vec::new();
    for i in 0..characters.len()
        invariant
            characters@ == input@,
            out@ == alnum_content(characters@.take(i as int)),
    {
        assert(characters@.take(i + 1).drop_last() == characters@.take(i as int));
        let c = characters[i];
        if ascii_alnum(c) {
            out.push(to_ascii_upper(c));
        }
    }
    assert(characters@.take(characters.len() as int) == characters@);
    string_of(&out)
}

/// The number of Morse signals in `input`.
pub fn morse_signal_count(input: &str) -> (r: usize)
    ensures
        r == signal_count(input@),
{
    let characters = chars_of(input);
    let mut count: usize = 0;
    for i in 0..characters.len()
        invariant
            characters@ == input@,
            count == signal_count(characters@.take(i as int)),
            count <= i,
    {
        assert(characters@.take(i + 1).drop_last() == characters@.take(i as int));
        let c = characters[i];
        if c == '.' || c == '·' || c == '-' || c == '_' {
            count += 1;
        }
    }
    assert(characters@.take(characters.len() as int) == characters@);
    count
}

/// What an exam asks for: encoding text as Morse, or decoding Morse.
#[derive(Debug, Clone, Copy, PartialEq, Eq, Structural)]
pub enum ExamDirection {
    Encode,
    Decode,
}

/// An exam question: the letters and digits an answer must hold, the answer
/// shown when it does not, and the question's Morse (whose signals are
/// counted for the keying rate).
#[derive(Debug)]
pub struct ExamQuestion {
    pub expected: String,
    pub expected_answer: String,
    pub question_morse: String,
}

pub open spec fn empty_question_error() -> Seq<char> {
    "exam question must contain at least one English letter or digit"@
}

/// The exam for `question`: (expected content, expected answer, question Morse).
pub open spec fn exam_question_spec(direction: ExamDirection, question: Seq<char>) -> Result<
    (Seq<char>, Seq<char>, Seq<char>),
    Seq<char>,
> {
    let set = match direction {
        ExamDirection::Encode => match first_unsupported(question) {
            Some(c) => Err(unsupported_error(c)),
            None => Ok((alnum_content(question), encode_spec(question), encode_spec(question))),
        },
        ExamDirection::Decode => match decode_spec(question) {
            Err(e) => Err(e),
            Ok(text) => Ok((alnum_content(text), text, question)),
        },
    };
    match set {
        Err(e) => Err(e),
        Ok((expected, answer, morse)) => if expected.len() == 0 {
            Err(empty_question_error())
        } else {
            Ok((expected, answer, morse))
        },
    }
}

/// Sets an exam question.
pub fn exam_question(direction: ExamDirection, question: &str) -> (r: Result<ExamQuestion, String>)
    ensures
        match exam_question_spec(direction, question@) {
            Ok((e, a, m)) => r matches Ok(q) && q.expected@ == e && q.expected_answer@ == a
                && q.question_morse@ == m,
            Err(e) => r matches Err(msg) && msg@ == e,
        },
{
    let q = match direction {
        ExamDirection::Encode => {
            let question_morse = encode_text(question)?;
            ExamQuestion {
                expected: alphanumeric_content(question),
                expected_answer: question_morse.clone(),
                question_morse,
            }
        },
        ExamDirection::Decode => {
            let expected_text = decode_morse(question)?;
            ExamQuestion {
                expected: alphanumeric_content(expected_text.as_str()),
                expected_answer: expected_text,
                question_morse: owned(question),
            }
        },
    };
    if q.expected.as_str().is_empty() {
        return Err(owned("exam question must contain at least one English letter or digit"));
    }
    Ok(q)
}

/// The letters and digits of an answer: for an encoding exam, those of the
/// answer decoded (none when it does not decode); for a decoding exam, those
/// of the answer itself.
pub open spec fn answer_content_spec(direction: ExamDirection, answer: Seq<char>) -> Seq<char> {
    match direction {
        ExamDirection::Encode => match decode_spec(answer) {
            Ok(text) => alnum_content(text),
            Err(_) => Seq::empty(),
        },
        ExamDirection::Decode => alnum_content(answer),
    }
}

/// The letters and digits that an answer is judged by.
pub fn exam_answer_content(direction: ExamDirection, answer: &str) -> (r: String)
    ensures
        r@ == answer_content_spec(direction, answer@),
{
    match direction {
        ExamDirection::Encode => match decode_morse(answer) {
            Ok(text) => alphanumeric_content(text.as_str()),
            Err(_) => String::new(),
        },
        ExamDirection::Decode => alphanumeric_content(answer),
    }
}

/// Whether an answer holds exactly the expected letters and digits: case
/// and formatting do not matter.
pub fn exam_is_correct(direction: ExamDirection, expected: &str, answer: &str) -> (r: bool)
    ensures
        r == (answer_content_spec(direction, answer@) == expected@),
{
    let actual = exam_answer_content(direction, answer);
    let expected_chars = chars_of(expected);
    let actual_chars = chars_of(actual.as_str());
    crate::table::same_chars(&actual_chars, &expected_chars)
}

} // verus!
