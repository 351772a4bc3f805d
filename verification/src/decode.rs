//! Decoding Morse text: signals, letter, word and paragraph gaps.
use vstd::prelude::*;
use crate::table::{letter_of, letter_for};
use crate::text::{is_ascii_ws, ascii_ws, chars_of, string_of, message};

verus! {

/// How far apart two decoded letters stand.
#[derive(Debug, Clone, Copy, PartialEq, Eq, Structural)]
pub enum MorseGap {
    Letter,
    Word,
    Paragraph,
}

pub open spec fn gap_rank(g: MorseGap) -> int {
    match g {
        MorseGap::Letter => 0,
        MorseGap::Word => 1,
        MorseGap::Paragraph => 2,
    }
}

/// The wider of a pending gap (if any) and the next one.
pub open spec fn wider_gap(current: Option<MorseGap>, next: MorseGap) -> MorseGap {
    match current {
        Some(g) => if gap_rank(g) >= gap_rank(next) { g } else { next },
        None => next,
    }
}

/// The gap that a run of whitespace stands for: one space separates letters,
/// two spaces separate words, anything else (three or more spaces, or any tab
/// or line break) separates paragraphs.
pub open spec fn run_gap(run: Seq<char>) -> MorseGap {
    if run.len() == 1 && run[0] == ' ' {
        MorseGap::Letter
    } else if run.len() == 2 && run[0] == ' ' && run[1] == ' ' {
        MorseGap::Word
    } else {
        MorseGap::Paragraph
    }
}

/// The signal that a character stands for: `.` or `·` is a dot, `-` or `_` a dash.
pub open spec fn signal_of(c: char) -> Option<char> {
    if c == '.' || c == '·' {
        Some('.')
    } else if c == '-' || c == '_' {
        Some('-')
    } else {
        None
    }
}

/// `s` without its trailing spaces.
pub open spec fn trim_trailing_spaces(s: Seq<char>) -> Seq<char>
    decreases s.len(),
{
    if s.len() > 0 && s.last() == ' ' {
        trim_trailing_spaces(s.drop_last())
    } else {
        s
    }
}

/// `out` with the separator for `gap` appended: nothing for a letter gap,
/// a space for a word gap, a blank line for a paragraph gap. Nothing is
/// added at the start of the text, nor after a separator already there.
pub open spec fn with_gap(out: Seq<char>, gap: Option<MorseGap>) -> Seq<char> {
    match gap {
        Some(MorseGap::Word) => {
            if out.len() > 0 && out.last() != ' ' && out.last() != '\n' {
                out.push(' ')
            } else {
                out
            }
        },
        Some(MorseGap::Paragraph) => {
            if out.len() > 0 && !(out.len() >= 2 && out[out.len() - 2] == '\n' && out.last()
                == '\n') {
                trim_trailing_spaces(out) + seq!['\n', '\n']
            } else {
                out
            }
        },
        _ => out,
    }
}

/// What a decoder has seen of its input: the text so far, the signals of the
/// letter being read, the widest gap since the last letter, and the
/// whitespace run being read.
pub struct DecodeState {
    pub out: Seq<char>,
    pub code: Seq<char>,
    pub pending: Option<MorseGap>,
    pub run: Seq<char>,
}

pub open spec fn initial_state() -> DecodeState {
    DecodeState { out: Seq::empty(), code: Seq::empty(), pending: None, run: Seq::empty() }
}

pub open spec fn unknown_code_error(code: Seq<char>) -> Seq<char> {
    "unknown Morse sequence '"@ + code + "'"@
}

pub open spec fn invalid_char_error(c: char) -> Seq<char> {
    "invalid Morse character '"@ + seq![c] + "'"@
}

/// Ends the letter being read, if any: its letter joins the text, or the
/// decoding fails when the code is not in the table.
pub open spec fn end_letter(st: DecodeState) -> Result<DecodeState, Seq<char>> {
    if st.code.len() == 0 {
        Ok(st)
    } else {
        match letter_of(st.code) {
            Some(l) => Ok(DecodeState { out: st.out.push(l), code: Seq::empty(), ..st }),
            None => Err(unknown_code_error(st.code)),
        }
    }
}

/// Ends the whitespace run being read, if any, widening the pending gap.
pub open spec fn end_run(st: DecodeState) -> DecodeState {
    if st.run.len() > 0 {
        DecodeState { pending: Some(wider_gap(st.pending, run_gap(st.run))), run: Seq::empty(), ..st }
    } else {
        st
    }
}

/// Reads one character.
pub open spec fn decode_step(st: DecodeState, c: char) -> Result<DecodeState, Seq<char>> {
    if is_ascii_ws(c) {
        match end_letter(st) {
            Ok(s) => Ok(DecodeState { run: s.run.push(c), ..s }),
            Err(e) => Err(e),
        }
    } else {
        let st = end_run(st);
        match signal_of(c) {
            Some(sig) => {
                if st.code.len() == 0 {
                    Ok(
                        DecodeState {
                            out: with_gap(st.out, st.pending),
                            code: seq![sig],
                            pending: None,
                            ..st
                        },
                    )
                } else {
                    Ok(DecodeState { code: st.code.push(sig), ..st })
                }
            },
            None => {
                if c == '/' {
                    match end_letter(st) {
                        Ok(s) => Ok(
                            DecodeState { pending: Some(wider_gap(s.pending, MorseGap::Word)), ..s },
                        ),
                        Err(e) => Err(e),
                    }
                } else {
                    Err(invalid_char_error(c))
                }
            },
        }
    }
}

/// The decoder's state after reading `s` from the state `st`, or the first error.
pub open spec fn decode_from(st: DecodeState, s: Seq<char>) -> Result<DecodeState, Seq<char>>
    decreases s.len(),
{
    if s.len() == 0 {
        Ok(st)
    } else {
        match decode_from(st, s.drop_last()) {
            Ok(x) => decode_step(x, s.last()),
            Err(e) => Err(e),
        }
    }
}

/// The decoder's state after reading all of `s`, or the first error.
pub open spec fn decode_prefix(s: Seq<char>) -> Result<DecodeState, Seq<char>> {
    decode_from(initial_state(), s)
}

/// The text that the Morse input `s` decodes to, or the error that stops it.
pub open spec fn decode_spec(s: Seq<char>) -> Result<Seq<char>, Seq<char>> {
    match decode_prefix(s) {
        Ok(st) => match end_letter(st) {
            Ok(fin) => Ok(fin.out),
            Err(e) => Err(e),
        },
        Err(e) => Err(e),
    }
}

proof fn lemma_decode_prefix_unfold(s: Seq<char>, i: int)
    requires
        0 <= i < s.len(),
    ensures
        decode_prefix(s.take(i + 1)) == match decode_prefix(s.take(i)) {
            Ok(st) => decode_step(st, s[i]),
            Err(e) => Err(e),
        },
{
    assert(s.take(i + 1).drop_last() == s.take(i));
}

proof fn lemma_error_persists(s: Seq<char>, n: int, m: int)
    requires
        0 <= n <= m <= s.len(),
        decode_prefix(s.take(n)) is Err,
    ensures
        decode_prefix(s.take(m)) == decode_prefix(s.take(n)),
    decreases m - n,
{
    if n < m {
        lemma_error_persists(s, n, m - 1);
        lemma_decode_prefix_unfold(s, m - 1);
    }
}

proof fn lemma_error_is_result(s: Seq<char>, n: int)
    requires
        0 <= n <= s.len(),
        decode_prefix(s.take(n)) is Err,
    ensures
        decode_spec(s) == Err::<Seq<char>, Seq<char>>(decode_prefix(s.take(n))->Err_0),
{
    lemma_error_persists(s, n, s.len() as int);
    assert(s.take(s.len() as int) == s);
}

/// The gap that the whitespace run `characters[start..end]` stands for.
fn whitespace_gap(characters: &Vec<char>, start: usize, end: usize) -> (g: MorseGap)
    requires
        start <= end <= characters.len(),
    ensures
        g == run_gap(characters@.subrange(start as int, end as int)),
{
    if end - start == 1 && characters[start] == ' ' {
        MorseGap::Letter
    } else if end - start == 2 && characters[start] == ' ' && characters[start + 1] == ' ' {
        MorseGap::Word
    } else {
        MorseGap::Paragraph
    }
}

fn max_gap(current: Option<MorseGap>, next: MorseGap) -> (g: MorseGap)
    ensures
        g == wider_gap(current, next),
{
    match current {
        Some(gap) => {
            let current_rank: u8 = match gap {
                MorseGap::Letter => 0,
                MorseGap::Word => 1,
                MorseGap::Paragraph => 2,
            };
            let next_rank: u8 = match next {
                MorseGap::Letter => 0,
                MorseGap::Word => 1,
                MorseGap::Paragraph => 2,
            };
            if current_rank >= next_rank {
                gap
            } else {
                next
            }
        },
        None => next,
    }
}

/// Ends the letter in `code`, appending its letter to `output`.
fn append_decoded_code(output: &mut Vec<char>, code: &mut Vec<char>) -> (r: Result<(), String>)
    ensures
        ({
            let st = DecodeState { out: old(output)@, code: old(code)@, pending: None, run: Seq::empty() };
            match end_letter(st) {
                Ok(s) => r is Ok && final(output)@ == s.out && final(code)@ == s.code,
                Err(e) => r matches Err(m) && m@ == e,
            }
        }),
{
    if code.len() == 0 {
        return Ok(());
    }
    match letter_for(code) {
        Some(letter) => {
            output.push(letter);
            code.clear();
            Ok(())
        },
        None => Err(message("unknown Morse sequence '", code, "'")),
    }
}

/// Appends the separator for `gap` to `output`.
fn append_gap(output: &mut Vec<char>, gap: Option<MorseGap>)
    ensures
        final(output)@ == with_gap(old(output)@, gap),
{
    match gap {
        Some(MorseGap::Word) => {
            let n = output.len();
            if n > 0 && output[n - 1] != ' ' && output[n - 1] != '\n' {
                output.push(' ');
            }
        },
        Some(MorseGap::Paragraph) => {
            let n = output.len();
            if n > 0 && !(n >= 2 && output[n - 2] == '\n' && output[n - 1] == '\n') {
                let ghost original = output@;
                while output.len() > 0 && output[output.len() - 1] == ' '
                    invariant
                        trim_trailing_spaces(output@) == trim_trailing_spaces(original),
                    decreases output.len(),
                {
                    output.pop();
                }
                output.push('\n');
                output.push('\n');
                assert(output@ =~= trim_trailing_spaces(original) + seq!['\n', '\n']);
            }
        },
        _ => {},
    }
}

/// Decodes Morse: `.` or `·` is a dot, `-` or `_` a dash; one space separates
/// letters, two spaces or `/` separate words, and three or more spaces, or a
/// whitespace run with a tab or a line break, separate paragraphs.
pub fn decode_morse(input: &str) -> (r: Result<String, String>)
    ensures
        match decode_spec(input@) {
            Ok(text) => r matches Ok(t) && t@ == text,
            Err(e) => r matches Err(m) && m@ == e,
        },
{
    let characters = chars_of(input);
    let ghost s = characters@;
    let mut output: Vec<char> = Vec::new();
    let mut code: Vec<char> = Vec::new();
    let mut pending_gap: Option<MorseGap> = None;
    let mut index: usize = 0;
    assert(s.take(0) == Seq::<char>::empty());
    while index < characters.len()
        invariant
            s == characters@,
            s == input@,
            index <= s.len(),
            decode_prefix(s.take(index as int)) is Ok,
            end_run(decode_prefix(s.take(index as int))->Ok_0) == (DecodeState {
                out: output@,
                code: code@,
                pending: pending_gap,
                run: Seq::empty(),
            }),
            decode_prefix(s.take(index as int))->Ok_0.run.len() > 0 ==> (index == s.len()
                || !is_ascii_ws(s[index as int])),
        decreases characters.len() - index,
    {
        proof {
            lemma_decode_prefix_unfold(s, index as int);
        }
        let c = characters[index];
        if c == '.' || c == '·' || c == '-' || c == '_' {
            let signal = if c == '.' || c == '·' { '.' } else { '-' };
            let was_empty = code.len() == 0;
            if was_empty {
                append_gap(&mut output, pending_gap);
                pending_gap = None;
            }
            code.push(signal);
            proof {
                if was_empty {
                    assert(code@ =~= seq![signal]);
                }
            }
            index += 1;
        } else if c == '/' {
            let step = append_decoded_code(&mut output, &mut code);
            if let Err(e) = step {
                proof {
                    lemma_error_is_result(s, index + 1);
                }
                return Err(e);
            }
            pending_gap = Some(max_gap(pending_gap, MorseGap::Word));
            index += 1;
        } else if ascii_ws(c) {
            let step = append_decoded_code(&mut output, &mut code);
            if let Err(e) = step {
                proof {
                    lemma_error_is_result(s, index + 1);
                }
                return Err(e);
            }
            let start = index;
            index += 1;
            assert(s.subrange(start as int, index as int) =~= seq![c]);
            while index < characters.len() && ascii_ws(characters[index])
                invariant
                    s == characters@,
                    start < index <= s.len(),
                    decode_prefix(s.take(index as int)) == Ok::<DecodeState, Seq<char>>(
                        DecodeState {
                            out: output@,
                            code: code@,
                            pending: pending_gap,
                            run: s.subrange(start as int, index as int),
                        },
                    ),
                    code@.len() == 0,
                decreases characters.len() - index,
            {
                proof {
                    lemma_decode_prefix_unfold(s, index as int);
                    assert(s.subrange(start as int, index + 1) == s.subrange(
                        start as int,
                        index as int,
                    ).push(s[index as int]));
                }
                index += 1;
            }
            let gap = whitespace_gap(&characters, start, index);
            pending_gap = Some(max_gap(pending_gap, gap));
            assert(code@ =~= Seq::<char>::empty());
        } else {
            proof {
                lemma_error_is_result(s, index + 1);
            }
            let detail = vec![c];
            return Err(message("invalid Morse character '", &detail, "'"));
        }
    }
    assert(s.take(s.len() as int) == s);
    let finish = append_decoded_code(&mut output, &mut code);
    if let Err(e) = finish {
        return Err(e);
    }
    Ok(string_of(&output))
}

} // verus!
