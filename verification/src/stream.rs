//! Decoding Morse as it is keyed, one signal at a time.
use vstd::prelude::*;
use crate::table::{letter_of, letter_for, code_of, is_table_letter, lemma_letter_of_code};
use crate::text::{chars_of, message};

verus! {

/// The error prosign: eight dots, which takes back the last decoded character.
pub open spec fn error_prosign() -> Seq<char> {
    seq!['.', '.', '.', '.', '.', '.', '.', '.']
}

/// The letter for a keyed code: its table letter, or `?` when there is none.
pub open spec fn keyed_letter(code: Seq<char>) -> char {
    match letter_of(code) {
        Some(l) => l,
        None => '?',
    }
}

/// Decoder contents: the finalized text and the code being keyed.
pub type StreamView = (Seq<char>, Seq<char>);

/// Ending the letter being keyed: nothing happens when no signal was keyed;
/// the error prosign removes the last finalized character; any other code
/// adds its letter, or `?` when it is not in the table. The flag says whether
/// the text changed.
pub open spec fn finish_letter_spec(v: StreamView) -> (StreamView, bool) {
    let (text, code) = v;
    if code.len() == 0 {
        (v, false)
    } else if code == error_prosign() {
        if text.len() > 0 {
            ((text.drop_last(), Seq::empty()), true)
        } else {
            ((text, Seq::empty()), false)
        }
    } else {
        ((text.push(keyed_letter(code)), Seq::empty()), true)
    }
}

/// Ending the word being keyed: the letter is ended, then a space follows the
/// text unless it is empty or already ends with one.
pub open spec fn finish_word_spec(v: StreamView) -> (StreamView, bool) {
    let (w, changed) = finish_letter_spec(v);
    let (text, code) = w;
    if text.len() > 0 && text.last() != ' ' {
        ((text.push(' '), code), true)
    } else {
        (w, changed)
    }
}

/// The text with a tentative decoding of the code being keyed: `⌫` for the
/// error prosign, else the code's letter or `?`.
pub open spec fn display_spec(v: StreamView) -> Seq<char> {
    let (text, code) = v;
    if code.len() == 0 {
        text
    } else if code == error_prosign() {
        text.push('⌫')
    } else {
        text.push(keyed_letter(code))
    }
}

pub open spec fn invalid_signal_error(c: char) -> Seq<char> {
    "invalid Morse signal '"@ + seq![c] + "'"@
}

/// Incrementally translates keyed Morse without requiring whitespace between
/// letters.
#[derive(Debug, Clone, PartialEq, Eq)]
pub struct MorseStreamDecoder {
    text: String,
    current_code: String,
}

impl View for MorseStreamDecoder {
    type V = StreamView;

    closed spec fn view(&self) -> StreamView {
        (self.text@, self.current_code@)
    }
}

impl Default for MorseStreamDecoder {
    fn default() -> (r: Self)
        ensures
            r@ == (Seq::<char>::empty(), Seq::<char>::empty()),
    {
        MorseStreamDecoder { text: String::new(), current_code: String::new() }
    }
}

fn is_error_prosign(code: &Vec<char>) -> (r: bool)
    ensures
        r == (code@ == error_prosign()),
{
    if code.len() != 8 {
        return false;
    }
    let mut i: usize = 0;
    while i < 8
        invariant
            code@.len() == 8,
            i <= 8,
            forall|j: int| 0 <= j < i ==> code@[j] == '.',
        decreases 8 - i,
    {
        if code[i] != '.' {
            return false;
        }
        i += 1;
    }
    assert(code@ =~= error_prosign());
    true
}

fn keyed_letter_for(code: &Vec<char>) -> (c: char)
    ensures
        c == keyed_letter(code@),
{
    match letter_for(code) {
        Some(l) => l,
        None => '?',
    }
}

impl MorseStreamDecoder {
    /// Adds one keyed signal, `.` or `-`, to the code being keyed.
    pub fn push_signal(&mut self, signal: char) -> (r: Result<(), String>)
        ensures
            signal == '.' || signal == '-' ==> r is Ok && final(self)@ == (old(self)@.0, old(
                self,
            )@.1.push(signal)),
            !(signal == '.' || signal == '-') ==> (r matches Err(m) && m@ == invalid_signal_error(
                signal,
            )) && final(self)@ == old(self)@,
    {
        if signal == '.' || signal == '-' {
            self.current_code.push(signal);
            Ok(())
        } else {
            let detail = vec![signal];
            Err(message("invalid Morse signal '", &detail, "'"))
        }
    }

    /// Finalizes the Morse sequence currently being keyed. Unknown sequences
    /// are retained as `?`, allowing a real-time session to continue.
    pub fn finish_letter(&mut self) -> (changed: bool)
        ensures
            (final(self)@, changed) == finish_letter_spec(old(self)@),
    {
        if self.current_code.as_str().is_empty() {
            return false;
        }
        let code = chars_of(self.current_code.as_str());
        if is_error_prosign(&code) {
            self.current_code.clear();
            return self.text.pop().is_some();
        }
        let letter = keyed_letter_for(&code);
        self.text.push(letter);
        self.current_code.clear();
        true
    }

    /// Finalizes the current letter and ends the word with a space.
    pub fn finish_word(&mut self) -> (changed: bool)
        ensures
            (final(self)@, changed) == finish_word_spec(old(self)@),
    {
        let changed = self.finish_letter();
        let text = chars_of(self.text.as_str());
        let n = text.len();
        if n > 0 && text[n - 1] != ' ' {
            self.text.push(' ');
            true
        } else {
            changed
        }
    }

    /// The Morse sequence currently being keyed.
    pub fn morse(&self) -> (r: &str)
        ensures
            r@ == self@.1,
    {
        self.current_code.as_str()
    }

    /// Text decoded so far, including a tentative decoding of the Morse
    /// sequence currently being entered.
    pub fn display_text(&self) -> (r: String)
        ensures
            r@ == display_spec(self@),
    {
        let mut text = self.text.clone();
        if !self.current_code.as_str().is_empty() {
            let code = chars_of(self.current_code.as_str());
            if is_error_prosign(&code) {
                text.push('⌫');
            } else {
                text.push(keyed_letter_for(&code));
            }
        }
        text
    }

    /// The text finalized so far.
    pub fn finalized_text(&self) -> (r: &str)
        ensures
            r@ == self@.0,
    {
        self.text.as_str()
    }
}

/// Ending a word twice is the same as ending it once: the second time
/// changes nothing and reports no change.
pub proof fn law_finish_word_idempotent(v: StreamView)
    ensures
        finish_word_spec(finish_word_spec(v).0) == (finish_word_spec(v).0, false),
{
}

/// Keying the code of a table letter and ending the letter adds exactly that
/// letter: the stream decoder reads the same table as `decode_morse`.
pub proof fn law_keyed_code_gives_letter(text: Seq<char>, c: char)
    requires
        is_table_letter(c),
    ensures
        finish_letter_spec((text, code_of(c))) == ((text.push(c), Seq::<char>::empty()), true),
{
    lemma_letter_of_code(c);
    assert(code_of(c).len() <= 5);
    assert(code_of(c) != error_prosign());
}

/// The error prosign takes back the last finalized character.
pub proof fn law_prosign_takes_back(text: Seq<char>, c: char)
    ensures
        finish_letter_spec((text.push(c), error_prosign())) == ((text, Seq::<char>::empty()), true),
{
    assert(text.push(c).drop_last() == text);
}

/// The live display is the finalized text followed by at most one tentative
/// character: with no code being keyed it is the finalized text itself;
/// otherwise one character more, which for any code but the error prosign is
/// the very letter that ending the letter would add, and for the prosign `⌫`.
pub proof fn law_display_extends_text(v: StreamView)
    ensures
        display_spec(v).len() == v.0.len() + if v.1.len() == 0 { 0int } else { 1int },
        display_spec(v).subrange(0, v.0.len() as int) == v.0,
        v.1.len() == 0 ==> display_spec(v) == v.0,
        v.1.len() > 0 && v.1 != error_prosign() ==> display_spec(v) == finish_letter_spec(v).0.0,
        v.1 == error_prosign() ==> display_spec(v).last() == '⌫',
{
    let (text, code) = v;
    if code.len() > 0 {
        assert(display_spec(v).subrange(0, text.len() as int) =~= text);
    } else {
        assert(text.subrange(0, text.len() as int) =~= text);
    }
}

/// The decoder contents that keying can reach: the text holds table letters,
/// `?` and single spaces between words, never leading; the code holds dots
/// and dashes.
pub open spec fn stream_wf(v: StreamView) -> bool {
    let (text, code) = v;
    &&& forall|i: int| 0 <= i < text.len() ==> (is_table_letter(#[trigger] text[i]) || text[i] == '?' || text[i] == ' ')
    &&& (text.len() > 0 ==> text[0] != ' ')
    &&& forall|i: int| 0 <= i < text.len() - 1 ==> !(#[trigger] text[i] == ' ' && text[i + 1] == ' ')
    &&& forall|i: int| 0 <= i < code.len() ==> (#[trigger] code[i] == '.' || code[i] == '-')
}

/// A new decoder is in a reachable state.
pub proof fn law_default_wf()
    ensures
        stream_wf((Seq::<char>::empty(), Seq::<char>::empty())),
{
}

/// Keying a signal keeps the decoder in a reachable state.
pub proof fn law_push_signal_wf(v: StreamView, signal: char)
    requires
        stream_wf(v),
    ensures
        (signal == '.' || signal == '-') ==> stream_wf((v.0, v.1.push(signal))),
{
    if signal == '.' || signal == '-' {
        let c2 = v.1.push(signal);
        assert forall|i: int| 0 <= i < c2.len() implies (#[trigger] c2[i] == '.' || c2[i] == '-') by {
            if i < v.1.len() {
                assert(c2[i] == v.1[i]);
            }
        }
    }
}

proof fn lemma_keyed_letter_kind(code: Seq<char>)
    ensures
        is_table_letter(keyed_letter(code)) || keyed_letter(code) == '?',
{
    if letter_of(code) is Some {
        let c = choose|c: char| is_table_letter(c) && code_of(c) == code;
        assert(letter_of(code) == Some(c));
    }
}

/// Ending a letter keeps the decoder in a reachable state.
pub proof fn law_finish_letter_wf(v: StreamView)
    requires
        stream_wf(v),
    ensures
        stream_wf(finish_letter_spec(v).0),
{
    let (text, code) = v;
    if code.len() > 0 {
        if code == error_prosign() {
            if text.len() > 0 {
                let t = text.drop_last();
                assert forall|i: int| 0 <= i < t.len() implies (is_table_letter(#[trigger] t[i]) || t[i] == '?' || t[i] == ' ') by {
                    assert(t[i] == text[i]);
                }
                assert forall|i: int| 0 <= i < t.len() - 1 implies !(#[trigger] t[i] == ' ' && t[i + 1] == ' ') by {
                    assert(t[i] == text[i]);
                    assert(t[i + 1] == text[i + 1]);
                }
                if t.len() > 0 {
                    assert(t[0] == text[0]);
                }
            }
        } else {
            let l = keyed_letter(code);
            lemma_keyed_letter_kind(code);
            let t = text.push(l);
            assert forall|i: int| 0 <= i < t.len() implies (is_table_letter(#[trigger] t[i]) || t[i] == '?' || t[i] == ' ') by {
                if i < text.len() {
                    assert(t[i] == text[i]);
                }
            }
            assert forall|i: int| 0 <= i < t.len() - 1 implies !(#[trigger] t[i] == ' ' && t[i + 1] == ' ') by {
                if i + 1 < text.len() {
                    assert(t[i] == text[i]);
                    assert(t[i + 1] == text[i + 1]);
                } else {
                    assert(t[i + 1] == l);
                }
            }
            if text.len() > 0 {
                assert(t[0] == text[0]);
            }
        }
    }
}

/// Ending a word keeps the decoder in a reachable state.
pub proof fn law_finish_word_wf(v: StreamView)
    requires
        stream_wf(v),
    ensures
        stream_wf(finish_word_spec(v).0),
{
    law_finish_letter_wf(v);
    let (w, changed) = finish_letter_spec(v);
    let (text, code) = w;
    if text.len() > 0 && text.last() != ' ' {
        let t = text.push(' ');
        assert forall|i: int| 0 <= i < t.len() implies (is_table_letter(#[trigger] t[i]) || t[i] == '?' || t[i] == ' ') by {
            if i < text.len() {
                assert(t[i] == text[i]);
            }
        }
        assert forall|i: int| 0 <= i < t.len() - 1 implies !(#[trigger] t[i] == ' ' && t[i + 1] == ' ') by {
            if i + 1 < text.len() {
                assert(t[i] == text[i]);
                assert(t[i + 1] == text[i + 1]);
            } else {
                assert(t[i] == text.last());
            }
        }
        assert(t[0] == text[0]);
    }
}

} // verus!
