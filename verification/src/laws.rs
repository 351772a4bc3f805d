//! Laws of the library: decoding undoes encoding, translation round-trips,
//! alternate symbols decode alike, and exams accept the expected answer.
use vstd::prelude::*;
use crate::table::{is_table_letter, code_of, is_known_code, letter_of, lemma_letter_of_code};
use crate::text::{is_ascii_ws, is_ascii_alnum, ascii_upper, ascii_lower, join, lemma_join_push, is_whitespace, trimmed, trim_start, trim_end};
use crate::decode::{gap_rank, run_gap, wider_gap, signal_of, decode_prefix, end_letter, trim_trailing_spaces, DecodeState, decode_from, decode_spec, end_run, with_gap, initial_state, decode_step, MorseGap};
use crate::detect::{detect_spec, translate_spec, is_morse_char, InputKind};
use crate::timing::{run_end, plan_from, plan_after_run, is_dot_or_dash, sounds_out, Segment, unit_samples_spec};
use crate::exam::{exam_question_spec, signal_count, is_signal_char, alnum_content, answer_content_spec, ExamDirection};
use crate::encode::{encode_spec, encode_word, letter_code, letter_codes, word_codes, words, split_state, first_unsupported, first_unsupported_from, is_unsupported, lemma_split_chars, lemma_letter_codes_push, lemma_word_codes_push};

verus! {

/// A word in upper case.
pub open spec fn upper_word(w: Seq<char>) -> Seq<char> {
    w.map_values(|c: char| ascii_upper(c))
}

/// The words in upper case, one space apart: what a decoder gives back for
/// the Morse of a text with these words.
pub open spec fn spoken_text(ws: Seq<Seq<char>>) -> Seq<char> {
    join(ws.map_values(|w: Seq<char>| upper_word(w)), seq![' '])
}

/// Decoding is associative over concatenation of its input.
pub proof fn lemma_decode_from_concat(st: DecodeState, a: Seq<char>, b: Seq<char>)
    ensures
        decode_from(st, a + b) == match decode_from(st, a) {
            Ok(x) => decode_from(x, b),
            Err(e) => Err(e),
        },
    decreases b.len(),
{
    if b.len() == 0 {
        assert(a + b == a);
    } else {
        lemma_decode_from_concat(st, a, b.drop_last());
        assert((a + b).drop_last() == a + b.drop_last());
        assert((a + b).last() == b.last());
    }
}

proof fn lemma_alnum_upper(c: char)
    requires
        is_ascii_alnum(c),
    ensures
        is_table_letter(ascii_upper(c)),
        ascii_upper(c) != ' ',
        ascii_upper(c) != '\n',
        letter_of(letter_code(c)) == Some(ascii_upper(c)),
        letter_code(c).len() > 0,
        forall|j: int| 0 <= j < letter_code(c).len() ==> (#[trigger] letter_code(c)[j] == '.' || letter_code(c)[j] == '-'),
{
    lemma_letter_of_code(ascii_upper(c));
}

/// Reading the signals of a code from a state with no letter begun.
proof fn lemma_read_code(st: DecodeState, k: Seq<char>)
    requires
        st.code.len() == 0,
        k.len() > 0,
        forall|j: int| 0 <= j < k.len() ==> (#[trigger] k[j] == '.' || k[j] == '-'),
    ensures
        decode_from(st, k) == Ok::<DecodeState, Seq<char>>(DecodeState {
            out: with_gap(st.out, end_run(st).pending),
            code: k,
            pending: None,
            run: Seq::empty(),
        }),
    decreases k.len(),
{
    let p = k.drop_last();
    let c = k.last();
    assert(c == k[k.len() - 1]);
    assert(signal_of(c) == Some(c));
    assert(!crate::text::is_ascii_ws(c));
    if p.len() == 0 {
        assert(k == seq![k[0]]);
        assert(decode_from(st, p) == Ok::<DecodeState, Seq<char>>(st));
        assert(decode_from(st, k) == decode_step(st, c));
        let st2 = end_run(st);
        assert(st2.code.len() == 0);
        assert(st2.run.len() == 0);
        assert(seq![c] == k);
        assert(decode_step(st, c) == Ok::<DecodeState, Seq<char>>(DecodeState {
            out: with_gap(st2.out, st2.pending),
            code: seq![c],
            pending: None,
            run: st2.run,
        }));
        assert(st2.run == Seq::<char>::empty());
    } else {
        assert forall|j: int| 0 <= j < p.len() implies (#[trigger] p[j] == '.' || p[j] == '-') by {
            assert(p[j] == k[j]);
        }
        lemma_read_code(st, p);
        assert(k.last() == k[k.len() - 1]);
        assert(p.push(k.last()) == k);
    }
}

proof fn lemma_decode_one(st: DecodeState, c: char)
    ensures
        decode_from(st, seq![c]) == decode_step(st, c),
{
    assert(seq![c].drop_last() =~= Seq::<char>::empty());
    assert(decode_from(st, Seq::<char>::empty()) == Ok::<DecodeState, Seq<char>>(st));
    assert(seq![c].last() == c);
}

proof fn lemma_upper_word_push(w: Seq<char>, c: char)
    ensures
        upper_word(w.push(c)) == upper_word(w).push(ascii_upper(c)),
{
    assert(upper_word(w.push(c)) =~= upper_word(w).push(ascii_upper(c)));
}

/// Reading the Morse of a word from a state with no letter begun leaves its
/// last letter still being read.
proof fn lemma_read_word(st: DecodeState, w: Seq<char>)
    requires
        st.code.len() == 0,
        w.len() > 0,
        forall|j: int| 0 <= j < w.len() ==> is_ascii_alnum(#[trigger] w[j]),
    ensures
        decode_from(st, encode_word(w)) == Ok::<DecodeState, Seq<char>>(DecodeState {
            out: with_gap(st.out, end_run(st).pending) + upper_word(w).drop_last(),
            code: letter_code(w.last()),
            pending: None,
            run: Seq::empty(),
        }),
    decreases w.len(),
{
    let p = w.drop_last();
    let c = w.last();
    let g = with_gap(st.out, end_run(st).pending);
    assert(w == p.push(c));
    assert(c == w[w.len() - 1]);
    lemma_alnum_upper(c);
    lemma_letter_codes_push(p, c);
    lemma_upper_word_push(p, c);
    if p.len() == 0 {
        assert(letter_codes(p) =~= Seq::<Seq<char>>::empty());
        assert(letter_codes(w) =~= seq![letter_code(c)]);
        assert(encode_word(w) == letter_code(c));
        lemma_read_code(st, letter_code(c));
        assert(upper_word(w).drop_last() =~= Seq::<char>::empty());
        assert(g + upper_word(w).drop_last() =~= g);
    } else {
        assert forall|j: int| 0 <= j < p.len() implies is_ascii_alnum(#[trigger] p[j]) by {
            assert(p[j] == w[j]);
        }
        lemma_read_word(st, p);
        lemma_join_push(letter_codes(p), seq![' '], letter_code(c));
        let a = encode_word(p);
        let k = letter_code(c);
        assert(encode_word(w) == a + seq![' '] + k);
        lemma_decode_from_concat(st, a + seq![' '], k);
        lemma_decode_from_concat(st, a, seq![' ']);
        let lp = p.last();
        assert(lp == p[p.len() - 1]);
        lemma_alnum_upper(lp);
        let x = DecodeState {
            out: g + upper_word(p).drop_last(),
            code: letter_code(lp),
            pending: None,
            run: Seq::empty(),
        };
        lemma_decode_one(x, ' ');
        let o2 = x.out.push(ascii_upper(lp));
        let y = DecodeState { out: o2, code: Seq::empty(), pending: None, run: seq![' '] };
        assert(decode_step(x, ' ') == Ok::<DecodeState, Seq<char>>(y));
        lemma_read_code(y, k);
        assert(end_run(y).pending == Some(MorseGap::Letter));
        assert(upper_word(p) == upper_word(p).drop_last().push(ascii_upper(lp))) by {
            assert(upper_word(p).len() == p.len());
            assert(upper_word(p)[p.len() - 1] == ascii_upper(lp));
            assert(upper_word(p) =~= upper_word(p).drop_last().push(ascii_upper(lp)));
        }
        assert(upper_word(w).drop_last() =~= upper_word(p));
        assert(o2 =~= g + upper_word(w).drop_last());
    }
}

proof fn lemma_join_last(parts: Seq<Seq<char>>, sep: Seq<char>)
    requires
        parts.len() > 0,
        parts.last().len() > 0,
    ensures
        join(parts, sep).len() > 0,
        join(parts, sep).last() == parts.last().last(),
{
    if parts.len() > 1 {
        let j = join(parts.drop_last(), sep) + sep;
        assert(join(parts, sep) == j + parts.last());
        assert((j + parts.last()).last() == parts.last().last());
    }
}

proof fn lemma_spoken_text_push(ws: Seq<Seq<char>>, w: Seq<char>)
    ensures
        spoken_text(ws.push(w)) == if ws.len() == 0 {
            upper_word(w)
        } else {
            spoken_text(ws) + seq![' '] + upper_word(w)
        },
{
    let f = |x: Seq<char>| upper_word(x);
    assert(ws.push(w).map_values(f) =~= ws.map_values(f).push(upper_word(w)));
    lemma_join_push(ws.map_values(f), seq![' '], upper_word(w));
}

/// Words fit for encoding: nonempty, of ASCII letters and digits.
pub open spec fn encodable_words(ws: Seq<Seq<char>>) -> bool {
    &&& forall|k: int| 0 <= k < ws.len() ==> #[trigger] ws[k].len() > 0
    &&& forall|k: int, j: int|
        0 <= k < ws.len() && 0 <= j < ws[k].len() ==> is_ascii_alnum(#[trigger] ws[k][j])
}

/// Reading the Morse of a text leaves the last letter of its last word still
/// being read, after all the others.
proof fn lemma_read_text(ws: Seq<Seq<char>>)
    requires
        ws.len() > 0,
        encodable_words(ws),
    ensures
        decode_from(initial_state(), join(word_codes(ws), seq![' ', ' '])) == Ok::<
            DecodeState,
            Seq<char>,
        >(DecodeState {
            out: spoken_text(ws).drop_last(),
            code: letter_code(ws.last().last()),
            pending: None,
            run: Seq::empty(),
        }),
    decreases ws.len(),
{
    let p = ws.drop_last();
    let w = ws.last();
    assert(ws == p.push(w));
    assert(w == ws[ws.len() - 1]);
    assert forall|j: int| 0 <= j < w.len() implies is_ascii_alnum(#[trigger] w[j]) by {
        assert(ws[ws.len() - 1][j] == w[j]);
    }
    lemma_word_codes_push(p, w);
    lemma_join_push(word_codes(p), seq![' ', ' '], encode_word(w));
    lemma_spoken_text_push(p, w);
    let init = initial_state();
    if p.len() == 0 {
        assert(word_codes(p) =~= Seq::<Seq<char>>::empty());
        lemma_read_word(init, w);
        assert(with_gap(init.out, end_run(init).pending) + upper_word(w).drop_last()
            =~= upper_word(w).drop_last());
    } else {
        assert(encodable_words(p)) by {
            assert forall|k: int| 0 <= k < p.len() implies #[trigger] p[k].len() > 0 by {
                assert(p[k] == ws[k]);
            }
            assert forall|k: int, j: int| 0 <= k < p.len() && 0 <= j < p[k].len()
                implies is_ascii_alnum(#[trigger] p[k][j]) by {
                assert(p[k] == ws[k]);
            }
        }
        lemma_read_text(p);
        let t = spoken_text(p);
        let lw = p.last();
        assert(lw == p[p.len() - 1]);
        let lc = lw.last();
        assert(lw.len() > 0);
        assert(lc == lw[lw.len() - 1]);
        lemma_alnum_upper(lc);
        lemma_upper_word_len(lw);
        assert(upper_word(lw).last() == ascii_upper(lc)) by {
            assert(upper_word(lw)[lw.len() - 1] == ascii_upper(lc));
        }
        assert(p.map_values(|x: Seq<char>| upper_word(x)).last() == upper_word(lw));
        lemma_join_last(p.map_values(|x: Seq<char>| upper_word(x)), seq![' ']);
        let a = join(word_codes(p), seq![' ', ' ']);
        let x = DecodeState {
            out: t.drop_last(),
            code: letter_code(lc),
            pending: None,
            run: Seq::empty(),
        };
        lemma_decode_from_concat(init, a + seq![' ', ' '], encode_word(w));
        lemma_decode_from_concat(init, a, seq![' ', ' ']);
        assert(seq![' ', ' '] == seq![' '] + seq![' ']);
        lemma_decode_from_concat(x, seq![' '], seq![' ']);
        lemma_decode_one(x, ' ');
        let y1 = DecodeState { out: t.drop_last().push(ascii_upper(lc)), code: Seq::empty(), pending: None, run: seq![' '] };
        assert(decode_step(x, ' ') == Ok::<DecodeState, Seq<char>>(y1));
        assert(t.drop_last().push(ascii_upper(lc)) =~= t);
        lemma_decode_one(y1, ' ');
        let y2 = DecodeState { out: t, code: Seq::empty(), pending: None, run: seq![' ', ' '] };
        assert(seq![' '].push(' ') =~= seq![' ', ' ']);
        assert(decode_step(y1, ' ') == Ok::<DecodeState, Seq<char>>(y2));
        lemma_read_word(y2, w);
        assert(end_run(y2).pending == Some(MorseGap::Word));
        assert(with_gap(t, Some(MorseGap::Word)) == t.push(' '));
        lemma_upper_word_len(w);
        assert((t + seq![' '] + upper_word(w)).drop_last() =~= t.push(' ') + upper_word(w).drop_last());
    }
}

proof fn lemma_upper_word_len(w: Seq<char>)
    ensures
        upper_word(w).len() == w.len(),
        forall|j: int| 0 <= j < w.len() ==> #[trigger] upper_word(w)[j] == ascii_upper(w[j]),
{
}

proof fn lemma_no_unsupported(s: Seq<char>, i: int)
    requires
        0 <= i <= s.len(),
        first_unsupported_from(s, i) is None,
    ensures
        forall|j: int| i <= j < s.len() ==> !is_unsupported(#[trigger] s[j]),
    decreases s.len() - i,
{
    if i < s.len() {
        lemma_no_unsupported(s, i + 1);
    }
}

/// The words of a text that has no unsupported character are fit for encoding.
pub proof fn lemma_words_encodable(s: Seq<char>)
    requires
        first_unsupported(s) is None,
    ensures
        encodable_words(words(s)),
{
    lemma_no_unsupported(s, 0);
    lemma_split_chars(s);
    let (done, cur) = split_state(s);
    if cur.len() > 0 {
        let ws = done.push(cur);
        assert forall|k: int| 0 <= k < ws.len() implies #[trigger] ws[k].len() > 0 by {
            if k < done.len() {
                assert(ws[k] == done[k]);
            }
        }
        assert forall|k: int, j: int| 0 <= k < ws.len() && 0 <= j < ws[k].len()
            implies is_ascii_alnum(#[trigger] ws[k][j]) by {
            if k < done.len() {
                assert(ws[k] == done[k]);
            } else {
                assert(ws[k] == cur);
            }
        }
    }
}

/// Decoding the Morse that a text encodes to gives back the text's words in
/// upper case, one space apart: Morse round-trips every letter and digit.
pub proof fn law_decode_inverts_encode(s: Seq<char>)
    requires
        first_unsupported(s) is None,
    ensures
        decode_spec(encode_spec(s)) == Ok::<Seq<char>, Seq<char>>(spoken_text(words(s))),
{
    let ws = words(s);
    lemma_words_encodable(s);
    if ws.len() == 0 {
        assert(word_codes(ws) =~= Seq::<Seq<char>>::empty());
        assert(ws.map_values(|w: Seq<char>| upper_word(w)) =~= Seq::<Seq<char>>::empty());
        assert(encode_spec(s) == Seq::<char>::empty());
        assert(decode_from(initial_state(), Seq::<char>::empty()) == Ok::<DecodeState, Seq<char>>(initial_state()));
    } else {
        lemma_read_text(ws);
        let lw = ws.last();
        assert(lw == ws[ws.len() - 1]);
        let lc = lw.last();
        assert(lc == lw[lw.len() - 1]);
        lemma_alnum_upper(lc);
        lemma_upper_word_len(lw);
        assert(upper_word(lw).last() == ascii_upper(lc));
        assert(ws.map_values(|x: Seq<char>| upper_word(x)).last() == upper_word(lw));
        lemma_join_last(ws.map_values(|x: Seq<char>| upper_word(x)), seq![' ']);
        let t = spoken_text(ws);
        assert(t.drop_last().push(ascii_upper(lc)) =~= t);
    }
}

/// The words in upper case, run together.
pub open spec fn flat_upper(ws: Seq<Seq<char>>) -> Seq<char>
    decreases ws.len(),
{
    if ws.len() == 0 {
        Seq::empty()
    } else {
        flat_upper(ws.drop_last()) + upper_word(ws.last())
    }
}

proof fn lemma_alnum_concat(a: Seq<char>, b: Seq<char>)
    ensures
        alnum_content(a + b) == alnum_content(a) + alnum_content(b),
    decreases b.len(),
{
    if b.len() == 0 {
        assert(a + b == a);
        assert(alnum_content(a) + alnum_content(b) =~= alnum_content(a));
    } else {
        lemma_alnum_concat(a, b.drop_last());
        assert((a + b).drop_last() == a + b.drop_last());
        assert((a + b).last() == b.last());
        assert(alnum_content(a + b) =~= alnum_content(a) + alnum_content(b));
    }
}

proof fn lemma_alnum_split(s: Seq<char>)
    requires
        forall|j: int| 0 <= j < s.len() ==> !is_unsupported(#[trigger] s[j]),
    ensures
        alnum_content(s) == flat_upper(split_state(s).0) + upper_word(split_state(s).1),
    decreases s.len(),
{
    if s.len() == 0 {
        assert(upper_word(Seq::<char>::empty()) =~= Seq::<char>::empty());
        assert(alnum_content(s) =~= flat_upper(split_state(s).0) + upper_word(split_state(s).1));
    } else {
        let p = s.drop_last();
        assert forall|j: int| 0 <= j < p.len() implies !is_unsupported(#[trigger] p[j]) by {
            assert(p[j] == s[j]);
        }
        lemma_alnum_split(p);
        let (done, cur) = split_state(p);
        let c = s.last();
        assert(!is_unsupported(s[s.len() - 1]));
        if crate::text::is_whitespace(c) {
            assert(!is_ascii_alnum(c));
            assert(upper_word(Seq::<char>::empty()) =~= Seq::<char>::empty());
            if cur.len() > 0 {
                assert(done.push(cur).drop_last() == done);
                assert(flat_upper(done.push(cur)) == flat_upper(done) + upper_word(cur));
            }
            assert(alnum_content(s) =~= flat_upper(split_state(s).0) + upper_word(split_state(s).1));
        } else {
            lemma_upper_word_push(cur, c);
            assert(alnum_content(s) =~= flat_upper(split_state(s).0) + upper_word(split_state(s).1));
        }
    }
}

proof fn lemma_alnum_upper_word(w: Seq<char>)
    requires
        forall|j: int| 0 <= j < w.len() ==> is_ascii_alnum(#[trigger] w[j]),
    ensures
        alnum_content(upper_word(w)) == upper_word(w),
    decreases w.len(),
{
    if w.len() > 0 {
        let p = w.drop_last();
        assert forall|j: int| 0 <= j < p.len() implies is_ascii_alnum(#[trigger] p[j]) by {
            assert(p[j] == w[j]);
        }
        lemma_alnum_upper_word(p);
        let c = w.last();
        assert(is_ascii_alnum(w[w.len() - 1]));
        assert(w == p.push(c));
        lemma_upper_word_push(p, c);
        assert(upper_word(w).drop_last() == upper_word(p));
        assert(ascii_upper(ascii_upper(c)) == ascii_upper(c));
    } else {
        assert(upper_word(w) =~= Seq::<char>::empty());
    }
}

proof fn lemma_alnum_spoken(ws: Seq<Seq<char>>)
    requires
        encodable_words(ws),
    ensures
        alnum_content(spoken_text(ws)) == flat_upper(ws),
    decreases ws.len(),
{
    if ws.len() == 0 {
        assert(ws.map_values(|w: Seq<char>| upper_word(w)) =~= Seq::<Seq<char>>::empty());
    } else {
        let p = ws.drop_last();
        let w = ws.last();
        assert(ws == p.push(w));
        assert(w == ws[ws.len() - 1]);
        assert(encodable_words(p)) by {
            assert forall|k: int| 0 <= k < p.len() implies #[trigger] p[k].len() > 0 by {
                assert(p[k] == ws[k]);
            }
            assert forall|k: int, j: int| 0 <= k < p.len() && 0 <= j < p[k].len()
                implies is_ascii_alnum(#[trigger] p[k][j]) by {
                assert(p[k] == ws[k]);
            }
        }
        assert forall|j: int| 0 <= j < w.len() implies is_ascii_alnum(#[trigger] w[j]) by {
            assert(ws[ws.len() - 1][j] == w[j]);
        }
        lemma_alnum_upper_word(w);
        lemma_spoken_text_push(p, w);
        if p.len() == 0 {
            assert(flat_upper(p) =~= Seq::<char>::empty());
            assert(flat_upper(ws) =~= upper_word(w));
        } else {
            lemma_alnum_spoken(p);
            let t = spoken_text(p);
            lemma_alnum_concat(t + seq![' '], upper_word(w));
            lemma_alnum_concat(t, seq![' ']);
            let sp: Seq<char> = seq![' '];
            assert(sp.drop_last() =~= Seq::<char>::empty());
            assert(sp.last() == ' ');
            assert(alnum_content(sp.drop_last()) == Seq::<char>::empty());
            assert(alnum_content(sp) =~= Seq::<char>::empty());
            assert(alnum_content(spoken_text(ws)) =~= flat_upper(ws));
        }
    }
}

/// In an encoding exam, answering with the question's Morse is judged
/// correct: the answer's letters and digits are those the exam expects.
pub proof fn law_exam_accepts_expected_morse(q: Seq<char>)
    requires
        first_unsupported(q) is None,
    ensures
        answer_content_spec(ExamDirection::Encode, encode_spec(q)) == alnum_content(q),
{
    law_decode_inverts_encode(q);
    lemma_no_unsupported(q, 0);
    lemma_alnum_split(q);
    lemma_words_encodable(q);
    lemma_alnum_spoken(words(q));
    let (done, cur) = split_state(q);
    if cur.len() > 0 {
        assert(done.push(cur).drop_last() == done);
    } else {
        assert(cur =~= Seq::<char>::empty());
        assert(upper_word(cur) =~= Seq::<char>::empty());
        assert(flat_upper(done) + upper_word(cur) =~= flat_upper(done));
    }
}

/// `c` with the alternate symbols `·` and `_` replaced by `.` and `-`.
pub open spec fn plain_symbol(c: char) -> char {
    if c == '·' {
        '.'
    } else if c == '_' {
        '-'
    } else {
        c
    }
}

pub open spec fn plain_symbols(s: Seq<char>) -> Seq<char> {
    s.map_values(|c: char| plain_symbol(c))
}

proof fn lemma_decode_from_plain(st: DecodeState, s: Seq<char>)
    ensures
        decode_from(st, s) == decode_from(st, plain_symbols(s)),
    decreases s.len(),
{
    if s.len() > 0 {
        lemma_decode_from_plain(st, s.drop_last());
        assert(plain_symbols(s).drop_last() =~= plain_symbols(s.drop_last()));
        assert(plain_symbols(s).last() == plain_symbol(s.last()));
    }
}

/// `·` and `.` are the same dot, `_` and `-` the same dash: decoding gives
/// the same text, or the same error, whichever symbols the input uses.
pub proof fn law_alternate_symbols(s: Seq<char>)
    ensures
        decode_spec(s) == decode_spec(plain_symbols(s)),
{
    lemma_decode_from_plain(initial_state(), s);
}

/// One step of splitting text into words.
pub open spec fn split_step(st: (Seq<Seq<char>>, Seq<char>), c: char) -> (Seq<Seq<char>>, Seq<char>) {
    let (done, cur) = st;
    if is_whitespace(c) {
        if cur.len() > 0 {
            (done.push(cur), Seq::empty())
        } else {
            (done, Seq::empty())
        }
    } else {
        (done, cur.push(c))
    }
}

/// Splitting `s` into words, from the state `st`.
pub open spec fn split_from(st: (Seq<Seq<char>>, Seq<char>), s: Seq<char>) -> (Seq<Seq<char>>, Seq<char>)
    decreases s.len(),
{
    if s.len() == 0 {
        st
    } else {
        split_step(split_from(st, s.drop_last()), s.last())
    }
}

proof fn lemma_split_state_is_split_from(s: Seq<char>)
    ensures
        split_state(s) == split_from((Seq::empty(), Seq::empty()), s),
    decreases s.len(),
{
    if s.len() > 0 {
        lemma_split_state_is_split_from(s.drop_last());
    }
}

proof fn lemma_split_from_concat(st: (Seq<Seq<char>>, Seq<char>), a: Seq<char>, b: Seq<char>)
    ensures
        split_from(st, a + b) == split_from(split_from(st, a), b),
    decreases b.len(),
{
    if b.len() == 0 {
        assert(a + b == a);
    } else {
        lemma_split_from_concat(st, a, b.drop_last());
        assert((a + b).drop_last() == a + b.drop_last());
        assert((a + b).last() == b.last());
    }
}

/// Reading a word with no whitespace extends the word being read.
proof fn lemma_split_word(done: Seq<Seq<char>>, cur: Seq<char>, w: Seq<char>)
    requires
        forall|j: int| 0 <= j < w.len() ==> !is_whitespace(#[trigger] w[j]),
    ensures
        split_from((done, cur), w) == (done, cur + w),
    decreases w.len(),
{
    if w.len() == 0 {
        assert(cur + w == cur);
    } else {
        let p = w.drop_last();
        assert forall|j: int| 0 <= j < p.len() implies !is_whitespace(#[trigger] p[j]) by {
            assert(p[j] == w[j]);
        }
        lemma_split_word(done, cur, p);
        assert(!is_whitespace(w[w.len() - 1]));
        assert((cur + p).push(w.last()) == cur + w);
    }
}

/// Splitting words joined by single spaces gives the words back.
proof fn lemma_words_of_joined(ws: Seq<Seq<char>>)
    requires
        ws.len() > 0,
        forall|k: int| 0 <= k < ws.len() ==> #[trigger] ws[k].len() > 0,
        forall|k: int, j: int| 0 <= k < ws.len() && 0 <= j < ws[k].len() ==> !is_whitespace(#[trigger] ws[k][j]),
    ensures
        split_from((Seq::empty(), Seq::empty()), join(ws, seq![' '])) == (ws.drop_last(), ws.last()),
    decreases ws.len(),
{
    let p = ws.drop_last();
    let w = ws.last();
    assert(w == ws[ws.len() - 1]);
    assert forall|j: int| 0 <= j < w.len() implies !is_whitespace(#[trigger] w[j]) by {
        assert(ws[ws.len() - 1][j] == w[j]);
    }
    let init: (Seq<Seq<char>>, Seq<char>) = (Seq::empty(), Seq::empty());
    if p.len() == 0 {
        assert(join(ws, seq![' ']) == w);
        lemma_split_word(Seq::empty(), Seq::empty(), w);
        assert(Seq::<char>::empty() + w == w);
    } else {
        assert forall|k: int| 0 <= k < p.len() implies #[trigger] p[k].len() > 0 by {
            assert(p[k] == ws[k]);
        }
        assert forall|k: int, j: int| 0 <= k < p.len() && 0 <= j < p[k].len() implies !is_whitespace(#[trigger] p[k][j]) by {
            assert(p[k] == ws[k]);
        }
        lemma_words_of_joined(p);
        let a = join(p, seq![' ']);
        assert(join(ws, seq![' ']) == a + seq![' '] + w);
        lemma_split_from_concat(init, a + seq![' '], w);
        lemma_split_from_concat(init, a, seq![' ']);
        let pl = p.last();
        assert(pl == p[p.len() - 1]);
        assert(pl.len() > 0);
        let sp: Seq<char> = seq![' '];
        assert(sp.drop_last() =~= Seq::<char>::empty());
        assert(sp.last() == ' ');
        assert(split_from((p.drop_last(), pl), Seq::<char>::empty()) == (p.drop_last(), pl));
        assert(split_from((p.drop_last(), pl), seq![' ']) == (p.drop_last().push(pl), Seq::<char>::empty()));
        assert(p.drop_last().push(pl) == p);
        lemma_split_word(p, Seq::empty(), w);
        assert(Seq::<char>::empty() + w == w);
        assert(ws.drop_last() == p);
    }
}

/// Every character of `join(parts, sep)` is a character of a part or of `sep`.
proof fn lemma_join_chars(parts: Seq<Seq<char>>, sep: Seq<char>, pred: spec_fn(char) -> bool)
    requires
        forall|k: int, j: int| 0 <= k < parts.len() && 0 <= j < parts[k].len() ==> pred(#[trigger] parts[k][j]),
        forall|j: int| 0 <= j < sep.len() ==> pred(#[trigger] sep[j]),
    ensures
        forall|i: int| 0 <= i < join(parts, sep).len() ==> pred(#[trigger] join(parts, sep)[i]),
    decreases parts.len(),
{
    if parts.len() == 1 {
        assert forall|i: int| 0 <= i < join(parts, sep).len() implies pred(#[trigger] join(parts, sep)[i]) by {
            assert(join(parts, sep)[i] == parts[0][i]);
        }
    } else if parts.len() > 1 {
        let p = parts.drop_last();
        assert forall|k: int, j: int| 0 <= k < p.len() && 0 <= j < p[k].len() implies pred(#[trigger] p[k][j]) by {
            assert(p[k] == parts[k]);
        }
        lemma_join_chars(p, sep, pred);
        let a = join(p, sep);
        let l = parts.last();
        assert(l == parts[parts.len() - 1]);
        assert forall|i: int| 0 <= i < join(parts, sep).len() implies pred(#[trigger] join(parts, sep)[i]) by {
            let j = join(parts, sep);
            assert(j == a + sep + l);
            if i < a.len() {
                assert(j[i] == a[i]);
            } else if i < a.len() + sep.len() {
                assert(j[i] == sep[i - a.len()]);
            } else {
                assert(j[i] == l[i - a.len() - sep.len()]);
                assert(pred(parts[parts.len() - 1][i - a.len() - sep.len()]));
            }
        }
    }
}

proof fn lemma_join_first(parts: Seq<Seq<char>>, sep: Seq<char>)
    requires
        parts.len() > 0,
        parts[0].len() > 0,
    ensures
        join(parts, sep).len() > 0,
        join(parts, sep)[0] == parts[0][0],
    decreases parts.len(),
{
    if parts.len() > 1 {
        let p = parts.drop_last();
        assert(p[0] == parts[0]);
        lemma_join_first(p, sep);
        let j = join(parts, sep);
        assert(j == join(p, sep) + sep + parts.last());
        assert(j[0] == join(p, sep)[0]);
    }
}

proof fn lemma_good_has_no_unsupported(s: Seq<char>, i: int)
    requires
        0 <= i <= s.len(),
        forall|j: int| 0 <= j < s.len() ==> !is_unsupported(#[trigger] s[j]),
    ensures
        first_unsupported_from(s, i) is None,
    decreases s.len() - i,
{
    if i < s.len() {
        lemma_good_has_no_unsupported(s, i + 1);
    }
}

proof fn lemma_upper_codes(w: Seq<char>)
    ensures
        encode_word(upper_word(w)) == encode_word(w),
{
    assert(letter_codes(upper_word(w)) =~= letter_codes(w)) by {
        assert forall|j: int| 0 <= j < w.len() implies #[trigger] letter_codes(upper_word(w))[j] == letter_codes(w)[j] by {
            let c = w[j];
            assert(ascii_upper(ascii_upper(c)) == ascii_upper(c));
        }
    }
}

/// The Morse of words: their codes, two spaces apart.
pub open spec fn morse_of_words(ws: Seq<Seq<char>>) -> Seq<char> {
    join(word_codes(ws), seq![' ', ' '])
}

pub open spec fn is_morse_output_char(c: char) -> bool {
    c == '.' || c == '-' || c == ' '
}

pub open spec fn is_signal(c: char) -> bool {
    c == '.' || c == '-'
}

proof fn lemma_letter_codes_signals(w: Seq<char>)
    requires
        forall|j: int| 0 <= j < w.len() ==> is_ascii_alnum(#[trigger] w[j]),
    ensures
        forall|a: int, b: int| 0 <= a < letter_codes(w).len() && 0 <= b < letter_codes(w)[a].len()
            ==> is_signal(#[trigger] letter_codes(w)[a][b]),
        forall|a: int| 0 <= a < letter_codes(w).len() ==> #[trigger] letter_codes(w)[a].len() > 0,
{
    assert forall|a: int, b: int| 0 <= a < letter_codes(w).len() && 0 <= b < letter_codes(w)[a].len()
        implies is_signal(#[trigger] letter_codes(w)[a][b]) by {
        lemma_alnum_upper(w[a]);
    }
    assert forall|a: int| 0 <= a < letter_codes(w).len() implies #[trigger] letter_codes(w)[a].len() > 0 by {
        lemma_alnum_upper(w[a]);
    }
}

/// The Morse of encodable words is made of dots, dashes and spaces.
proof fn lemma_morse_chars(ws: Seq<Seq<char>>)
    requires
        encodable_words(ws),
    ensures
        forall|i: int| 0 <= i < morse_of_words(ws).len()
            ==> is_morse_output_char(#[trigger] morse_of_words(ws)[i]),
{
    let codes = word_codes(ws);
    let pred = |c: char| is_morse_output_char(c);
    assert forall|k: int, j: int| 0 <= k < codes.len() && 0 <= j < codes[k].len()
        implies pred(#[trigger] codes[k][j]) by {
        let w = ws[k];
        assert forall|b: int| 0 <= b < w.len() implies is_ascii_alnum(#[trigger] w[b]) by {
            assert(is_ascii_alnum(ws[k][b]));
        }
        lemma_letter_codes_signals(w);
        let lc = letter_codes(w);
        assert(codes[k] == join(lc, seq![' ']));
        lemma_join_chars(lc, seq![' '], pred);
    }
    lemma_join_chars(codes, seq![' ', ' '], pred);
}

/// The Morse of encodable words starts and ends with a signal.
proof fn lemma_morse_ends(ws: Seq<Seq<char>>)
    requires
        encodable_words(ws),
        ws.len() > 0,
    ensures
        morse_of_words(ws).len() > 0,
        is_signal(morse_of_words(ws)[0]),
        is_signal(morse_of_words(ws).last()),
{
    let codes = word_codes(ws);
    let first = ws[0];
    let last = ws.last();
    assert(last == ws[ws.len() - 1]);
    assert forall|b: int| 0 <= b < first.len() implies is_ascii_alnum(#[trigger] first[b]) by {
        assert(is_ascii_alnum(ws[0][b]));
    }
    assert forall|b: int| 0 <= b < last.len() implies is_ascii_alnum(#[trigger] last[b]) by {
        assert(is_ascii_alnum(ws[ws.len() - 1][b]));
    }
    lemma_letter_codes_signals(first);
    lemma_letter_codes_signals(last);
    let lf = letter_codes(first);
    let ll = letter_codes(last);
    assert(lf.len() > 0 && lf[0].len() > 0);
    assert(ll.len() > 0);
    assert(ll.last() == ll[ll.len() - 1]);
    assert(ll.last().len() > 0);
    lemma_join_first(lf, seq![' ']);
    lemma_join_last(ll, seq![' ']);
    assert(is_signal(ll.last().last())) by {
        assert(ll.last().last() == ll[ll.len() - 1][ll[ll.len() - 1].len() - 1]);
    }
    assert(codes[0] == encode_word(first));
    assert(codes.last() == encode_word(last));
    lemma_join_first(codes, seq![' ', ' ']);
    lemma_join_last(codes, seq![' ', ' ']);
}

/// Translating the Morse that a text translates to gives back the text's
/// words in upper case, one space apart, with the same Morse to sound out.
pub proof fn law_translate_round_trip(s: Seq<char>)
    requires
        first_unsupported(s) is None,
        words(s).len() > 0,
    ensures
        translate_spec(encode_spec(s)) == Ok::<(InputKind, Seq<char>, Seq<char>), Seq<char>>(
            (InputKind::Morse, spoken_text(words(s)), encode_spec(s)),
        ),
{
    let ws = words(s);
    let m = encode_spec(s);
    let t = spoken_text(ws);
    lemma_words_encodable(s);
    law_decode_inverts_encode(s);
    assert(m == morse_of_words(ws));
    // The Morse is detected as Morse.
    lemma_morse_chars(ws);
    lemma_morse_ends(ws);
    assert(trim_start(m, 0) == 0);
    assert(m.last() == m[m.len() - 1]);
    assert(trim_end(m, m.len() as int) == m.len());
    assert(m.subrange(0, m.len() as int) == m);
    assert(trimmed(m) == m);
    assert(forall|i: int| 0 <= i < m.len() ==> is_morse_char(#[trigger] m[i]));
    assert(detect_spec(m) == Ok::<InputKind, Seq<char>>(InputKind::Morse));
    // The decoded text holds only letters, digits and spaces.
    let uws = ws.map_values(|w: Seq<char>| upper_word(w));
    assert forall|k: int| 0 <= k < uws.len() implies #[trigger] uws[k].len() > 0 by {
        lemma_upper_word_len(ws[k]);
    }
    assert forall|k: int, j: int| 0 <= k < uws.len() && 0 <= j < uws[k].len()
        implies is_ascii_alnum(#[trigger] uws[k][j]) by {
        lemma_upper_word_len(ws[k]);
        lemma_alnum_upper(ws[k][j]);
    }
    let good = |c: char| !is_unsupported(c);
    assert forall|k: int, j: int| 0 <= k < uws.len() && 0 <= j < uws[k].len()
        implies good(#[trigger] uws[k][j]) by {
        assert(is_ascii_alnum(uws[k][j]));
    }
    lemma_join_chars(uws, seq![' '], good);
    assert(forall|j: int| 0 <= j < t.len() ==> !is_unsupported(#[trigger] t[j]));
    lemma_good_has_no_unsupported(t, 0);
    // Its words are the upper-case words, whose Morse is the Morse of the text.
    assert forall|k: int, j: int| 0 <= k < uws.len() && 0 <= j < uws[k].len()
        implies !is_whitespace(#[trigger] uws[k][j]) by {
        assert(is_ascii_alnum(uws[k][j]));
    }
    lemma_words_of_joined(uws);
    lemma_split_state_is_split_from(t);
    let (done, cur) = split_state(t);
    assert(uws.last() == uws[uws.len() - 1]);
    assert(cur.len() > 0);
    assert(words(t) == done.push(cur));
    assert(done.push(cur) == uws);
    assert(word_codes(uws) =~= word_codes(ws)) by {
        assert forall|k: int| 0 <= k < ws.len() implies #[trigger] word_codes(uws)[k] == word_codes(ws)[k] by {
            lemma_upper_codes(ws[k]);
        }
    }
    assert(encode_spec(t) == m);
}

/// The first of two possible findings.
pub open spec fn or_else(a: Option<char>, b: Option<char>) -> Option<char> {
    match a {
        Some(c) => Some(c),
        None => b,
    }
}

proof fn lemma_first_unsupported_shift(a: Seq<char>, b: Seq<char>, j: int)
    requires
        0 <= j <= b.len(),
    ensures
        first_unsupported_from(a + b, a.len() + j) == first_unsupported_from(b, j),
    decreases b.len() - j,
{
    if j < b.len() {
        lemma_first_unsupported_shift(a, b, j + 1);
        assert((a + b)[a.len() + j] == b[j]);
    }
}

proof fn lemma_first_unsupported_concat_from(a: Seq<char>, b: Seq<char>, i: int)
    requires
        0 <= i <= a.len(),
    ensures
        first_unsupported_from(a + b, i) == or_else(first_unsupported_from(a, i), first_unsupported(b)),
    decreases a.len() - i,
{
    if i == a.len() {
        lemma_first_unsupported_shift(a, b, 0);
    } else {
        lemma_first_unsupported_concat_from(a, b, i + 1);
        assert((a + b)[i] == a[i]);
    }
}

/// The first unsupported character of `a + b` is that of `a`, or else that of `b`.
pub proof fn lemma_first_unsupported_concat(a: Seq<char>, b: Seq<char>)
    ensures
        first_unsupported(a + b) == or_else(first_unsupported(a), first_unsupported(b)),
{
    lemma_first_unsupported_concat_from(a, b, 0);
}

/// The first unsupported character among words, in order.
pub open spec fn first_unsupported_in(ws: Seq<Seq<char>>) -> Option<char>
    decreases ws.len(),
{
    if ws.len() == 0 {
        None
    } else {
        or_else(first_unsupported_in(ws.drop_last()), first_unsupported(ws.last()))
    }
}

proof fn lemma_first_unsupported_one(c: char)
    ensures
        first_unsupported(seq![c]) == if is_unsupported(c) { Some(c) } else { None::<char> },
{
    let s: Seq<char> = seq![c];
    assert(s[0] == c);
    assert(first_unsupported_from(s, 1) is None);
}

proof fn lemma_first_unsupported_split(s: Seq<char>)
    ensures
        first_unsupported(s) == or_else(first_unsupported_in(split_state(s).0), first_unsupported(split_state(s).1)),
    decreases s.len(),
{
    if s.len() == 0 {
        assert(first_unsupported(Seq::<char>::empty()) is None);
    } else {
        let p = s.drop_last();
        let c = s.last();
        lemma_first_unsupported_split(p);
        assert(s == p + seq![c]);
        lemma_first_unsupported_concat(p, seq![c]);
        lemma_first_unsupported_one(c);
        let (done, cur) = split_state(p);
        assert(first_unsupported(Seq::<char>::empty()) is None);
        if is_whitespace(c) {
            if cur.len() > 0 {
                assert(done.push(cur).drop_last() == done);
            }
        } else {
            assert(cur.push(c) == cur + seq![c]);
            lemma_first_unsupported_concat(cur, seq![c]);
        }
    }
}

/// The first unsupported character of a text is the first among its words.
proof fn lemma_first_unsupported_words(s: Seq<char>)
    ensures
        first_unsupported(s) == first_unsupported_in(words(s)),
{
    lemma_first_unsupported_split(s);
    let (done, cur) = split_state(s);
    assert(first_unsupported(Seq::<char>::empty()) is None);
    if cur.len() > 0 {
        assert(done.push(cur).drop_last() == done);
    } else {
        assert(cur == Seq::<char>::empty());
    }
}

proof fn lemma_first_unsupported_joined(ws: Seq<Seq<char>>)
    ensures
        first_unsupported(join(ws, seq![' '])) == first_unsupported_in(ws),
    decreases ws.len(),
{
    if ws.len() == 0 {
        assert(first_unsupported(Seq::<char>::empty()) is None);
    } else if ws.len() == 1 {
        assert(ws.drop_last().len() == 0);
        assert(first_unsupported_in(ws.drop_last()) is None);
        assert(ws.last() == ws[0]);
    } else {
        let p = ws.drop_last();
        lemma_first_unsupported_joined(p);
        let a = join(p, seq![' ']);
        assert(join(ws, seq![' ']) == a + seq![' '] + ws.last());
        lemma_first_unsupported_concat(a + seq![' '], ws.last());
        lemma_first_unsupported_concat(a, seq![' ']);
        lemma_first_unsupported_one(' ');
    }
}

/// Every word of a text is nonempty and free of whitespace.
proof fn lemma_words_shape(s: Seq<char>)
    ensures
        forall|k: int| 0 <= k < words(s).len() ==> #[trigger] words(s)[k].len() > 0,
        forall|k: int, j: int| 0 <= k < words(s).len() && 0 <= j < words(s)[k].len() ==> !is_whitespace(#[trigger] words(s)[k][j]),
{
    lemma_split_shape(s);
    let (done, cur) = split_state(s);
    if cur.len() > 0 {
        let ws = done.push(cur);
        assert forall|k: int, j: int| 0 <= k < ws.len() && 0 <= j < ws[k].len() implies !is_whitespace(#[trigger] ws[k][j]) by {
            if k < done.len() {
                assert(ws[k] == done[k]);
            }
        }
        assert forall|k: int| 0 <= k < ws.len() implies #[trigger] ws[k].len() > 0 by {
            if k < done.len() {
                assert(ws[k] == done[k]);
            }
        }
    }
}

proof fn lemma_split_shape(s: Seq<char>)
    ensures
        forall|k: int| 0 <= k < split_state(s).0.len() ==> #[trigger] split_state(s).0[k].len() > 0,
        forall|k: int, j: int| 0 <= k < split_state(s).0.len() && 0 <= j < split_state(s).0[k].len() ==> !is_whitespace(#[trigger] split_state(s).0[k][j]),
        forall|j: int| 0 <= j < split_state(s).1.len() ==> !is_whitespace(#[trigger] split_state(s).1[j]),
    decreases s.len(),
{
    if s.len() > 0 {
        let p = s.drop_last();
        lemma_split_shape(p);
        let (done, cur) = split_state(p);
        let c = s.last();
        if is_whitespace(c) {
            if cur.len() > 0 {
                let d2 = done.push(cur);
                assert forall|k: int, j: int| 0 <= k < d2.len() && 0 <= j < d2[k].len() implies !is_whitespace(#[trigger] d2[k][j]) by {
                    if k < done.len() {
                        assert(d2[k] == done[k]);
                    } else {
                        assert(d2[k] == cur);
                    }
                }
                assert forall|k: int| 0 <= k < d2.len() implies #[trigger] d2[k].len() > 0 by {
                    if k < done.len() {
                        assert(d2[k] == done[k]);
                    }
                }
            }
        } else {
            let c2 = cur.push(c);
            assert forall|j: int| 0 <= j < c2.len() implies !is_whitespace(#[trigger] c2[j]) by {
                if j < cur.len() {
                    assert(c2[j] == cur[j]);
                }
            }
        }
    }
}

/// `encode_text` does not depend on the whitespace between words: the text
/// with its words one space apart encodes alike, or fails alike.
pub proof fn law_encode_ignores_spacing(s: Seq<char>)
    ensures
        first_unsupported(join(words(s), seq![' '])) == first_unsupported(s),
        words(join(words(s), seq![' '])) == words(s),
        encode_spec(join(words(s), seq![' '])) == encode_spec(s),
{
    let ws = words(s);
    lemma_first_unsupported_words(s);
    lemma_first_unsupported_joined(ws);
    lemma_words_shape(s);
    let t = join(ws, seq![' ']);
    if ws.len() == 0 {
        assert(t == Seq::<char>::empty());
        assert(split_state(t) == (Seq::<Seq<char>>::empty(), Seq::<char>::empty()));
        assert(words(t) =~= ws);
    } else {
        lemma_words_of_joined(ws);
        lemma_split_state_is_split_from(t);
        assert(ws.last() == ws[ws.len() - 1]);
        assert(ws.drop_last().push(ws.last()) == ws);
    }
}

/// A change of letter case: it keeps whitespace, letters and digits as they
/// are classed, changes nothing else, and keeps each letter's code.
pub open spec fn is_case_change(f: spec_fn(char) -> char) -> bool {
    forall|c: char|
        {
            &&& is_whitespace(#[trigger] f(c)) == is_whitespace(c)
            &&& is_ascii_alnum(f(c)) == is_ascii_alnum(c)
            &&& !is_ascii_alnum(c) ==> f(c) == c
            &&& letter_code(f(c)) == letter_code(c)
        }
}

proof fn lemma_split_case(s: Seq<char>, f: spec_fn(char) -> char)
    requires
        is_case_change(f),
    ensures
        split_state(s.map_values(f)) == (
            split_state(s).0.map_values(|w: Seq<char>| w.map_values(f)),
            split_state(s).1.map_values(f),
        ),
    decreases s.len(),
{
    let g = |w: Seq<char>| w.map_values(f);
    if s.len() == 0 {
        assert(s.map_values(f) =~= Seq::<char>::empty());
        assert(Seq::<Seq<char>>::empty().map_values(g) =~= Seq::<Seq<char>>::empty());
        assert(Seq::<char>::empty().map_values(f) =~= Seq::<char>::empty());
    } else {
        let p = s.drop_last();
        let c = s.last();
        lemma_split_case(p, f);
        assert(s.map_values(f).drop_last() =~= p.map_values(f));
        assert(s.map_values(f).last() == f(c));
        let (done, cur) = split_state(p);
        assert(is_whitespace(f(c)) == is_whitespace(c));
        if is_whitespace(c) {
            assert(Seq::<char>::empty().map_values(f) =~= Seq::<char>::empty());
            if cur.len() > 0 {
                assert(done.push(cur).map_values(g) =~= done.map_values(g).push(g(cur)));
            }
        } else {
            assert(cur.push(c).map_values(f) =~= cur.map_values(f).push(f(c)));
        }
    }
}

proof fn lemma_first_unsupported_case(s: Seq<char>, f: spec_fn(char) -> char, i: int)
    requires
        is_case_change(f),
        0 <= i <= s.len(),
    ensures
        first_unsupported_from(s.map_values(f), i) == first_unsupported_from(s, i),
    decreases s.len() - i,
{
    if i < s.len() {
        lemma_first_unsupported_case(s, f, i + 1);
        let c = s[i];
        assert(s.map_values(f)[i] == f(c));
        assert(is_whitespace(f(c)) == is_whitespace(c));
    }
}

proof fn lemma_encode_case(s: Seq<char>, f: spec_fn(char) -> char)
    requires
        is_case_change(f),
    ensures
        first_unsupported(s.map_values(f)) == first_unsupported(s),
        encode_spec(s.map_values(f)) == encode_spec(s),
{
    lemma_first_unsupported_case(s, f, 0);
    lemma_split_case(s, f);
    let g = |w: Seq<char>| w.map_values(f);
    let ws = words(s);
    let (done, cur) = split_state(s);
    if cur.len() > 0 {
        assert(done.push(cur).map_values(g) =~= done.map_values(g).push(g(cur)));
    }
    assert(words(s.map_values(f)) == ws.map_values(g));
    assert(word_codes(ws.map_values(g)) =~= word_codes(ws)) by {
        assert forall|k: int| 0 <= k < ws.len() implies #[trigger] word_codes(ws.map_values(g))[k] == word_codes(ws)[k] by {
            let w = ws[k];
            assert(letter_codes(w.map_values(f)) =~= letter_codes(w)) by {
                assert forall|j: int| 0 <= j < w.len() implies #[trigger] letter_codes(w.map_values(f))[j] == letter_codes(w)[j] by {
                    assert(letter_code(f(w[j])) == letter_code(w[j]));
                }
            }
        }
    }
}

/// `encode_text` does not depend on letter case: the text in upper case, or
/// in lower case, encodes alike, or fails alike.
pub proof fn law_encode_ignores_case(s: Seq<char>)
    ensures
        first_unsupported(s.map_values(|c: char| ascii_upper(c))) == first_unsupported(s),
        encode_spec(s.map_values(|c: char| ascii_upper(c))) == encode_spec(s),
        first_unsupported(s.map_values(|c: char| ascii_lower(c))) == first_unsupported(s),
        encode_spec(s.map_values(|c: char| ascii_lower(c))) == encode_spec(s),
{
    let up = |c: char| ascii_upper(c);
    let low = |c: char| ascii_lower(c);
    assert(is_case_change(up));
    assert(is_case_change(low));
    lemma_encode_case(s, up);
    lemma_encode_case(s, low);
}

/// The number of signals that the letters of `s` take in Morse.
pub open spec fn signal_weight(s: Seq<char>) -> nat
    decreases s.len(),
{
    if s.len() == 0 {
        0
    } else {
        signal_weight(s.drop_last()) + if is_table_letter(s.last()) {
            code_of(s.last()).len()
        } else {
            0
        }
    }
}

/// A character of decoded text: a table letter, a space or a line break.
pub open spec fn is_decoded_char(c: char) -> bool {
    is_table_letter(c) || c == ' ' || c == '\n'
}

proof fn lemma_weight_concat(a: Seq<char>, b: Seq<char>)
    ensures
        signal_weight(a + b) == signal_weight(a) + signal_weight(b),
    decreases b.len(),
{
    if b.len() == 0 {
        assert(a + b == a);
    } else {
        lemma_weight_concat(a, b.drop_last());
        assert((a + b).drop_last() == a + b.drop_last());
        assert((a + b).last() == b.last());
    }
}

proof fn lemma_count_concat(a: Seq<char>, b: Seq<char>)
    ensures
        signal_count(a + b) == signal_count(a) + signal_count(b),
    decreases b.len(),
{
    if b.len() == 0 {
        assert(a + b == a);
    } else {
        lemma_count_concat(a, b.drop_last());
        assert((a + b).drop_last() == a + b.drop_last());
        assert((a + b).last() == b.last());
    }
}

proof fn lemma_trim_keeps(o: Seq<char>)
    requires
        forall|i: int| 0 <= i < o.len() ==> is_decoded_char(#[trigger] o[i]),
    ensures
        signal_weight(trim_trailing_spaces(o)) == signal_weight(o),
        forall|i: int| 0 <= i < trim_trailing_spaces(o).len() ==> is_decoded_char(#[trigger] trim_trailing_spaces(o)[i]),
    decreases o.len(),
{
    if o.len() > 0 && o.last() == ' ' {
        let p = o.drop_last();
        assert forall|i: int| 0 <= i < p.len() implies is_decoded_char(#[trigger] p[i]) by {
            assert(p[i] == o[i]);
        }
        lemma_trim_keeps(p);
    }
}

proof fn lemma_append_decoded(o: Seq<char>, extra: Seq<char>)
    requires
        forall|i: int| 0 <= i < o.len() ==> is_decoded_char(#[trigger] o[i]),
        forall|i: int| 0 <= i < extra.len() ==> is_decoded_char(#[trigger] extra[i]),
    ensures
        forall|i: int| 0 <= i < (o + extra).len() ==> is_decoded_char(#[trigger] (o + extra)[i]),
{
    assert forall|i: int| 0 <= i < (o + extra).len() implies is_decoded_char(#[trigger] (o + extra)[i]) by {
        if i < o.len() {
            assert((o + extra)[i] == o[i]);
        } else {
            assert((o + extra)[i] == extra[i - o.len()]);
        }
    }
}

proof fn lemma_weight_one(c: char)
    requires
        !is_table_letter(c),
    ensures
        signal_weight(seq![c]) == 0,
{
    let s: Seq<char> = seq![c];
    assert(s.drop_last() =~= Seq::<char>::empty());
    assert(s.last() == c);
    assert(signal_weight(Seq::<char>::empty()) == 0);
}

proof fn lemma_gap_keeps(o: Seq<char>, g: Option<MorseGap>)
    requires
        forall|i: int| 0 <= i < o.len() ==> is_decoded_char(#[trigger] o[i]),
    ensures
        signal_weight(with_gap(o, g)) == signal_weight(o),
        forall|i: int| 0 <= i < with_gap(o, g).len() ==> is_decoded_char(#[trigger] with_gap(o, g)[i]),
{
    match g {
        Some(MorseGap::Word) => {
            if o.len() > 0 && o.last() != ' ' && o.last() != '\n' {
                let sp: Seq<char> = seq![' '];
                assert(o.push(' ') == o + sp);
                lemma_weight_concat(o, sp);
                lemma_weight_one(' ');
                lemma_append_decoded(o, sp);
            }
        },
        Some(MorseGap::Paragraph) => {
            if o.len() > 0 && !(o.len() >= 2 && o[o.len() - 2] == '\n' && o.last() == '\n') {
                let t = trim_trailing_spaces(o);
                lemma_trim_keeps(o);
                let nl: Seq<char> = seq!['\n', '\n'];
                lemma_weight_concat(t, nl);
                lemma_weight_one('\n');
                assert(nl =~= seq!['\n'] + seq!['\n']);
                lemma_weight_concat(seq!['\n'], seq!['\n']);
                lemma_append_decoded(t, nl);
            }
        },
        _ => {},
    }
}

/// What holds of every state that decoding reaches: the text so far is
/// decoded characters, the code is dots and dashes, and the signals read
/// are those of the text's letters and of the code.
pub open spec fn counted(s: Seq<char>, st: DecodeState) -> bool {
    &&& forall|i: int| 0 <= i < st.out.len() ==> is_decoded_char(#[trigger] st.out[i])
    &&& forall|i: int| 0 <= i < st.code.len() ==> (#[trigger] st.code[i] == '.' || st.code[i] == '-')
    &&& signal_count(s) == signal_weight(st.out) + st.code.len()
}

proof fn lemma_end_letter_counted(s: Seq<char>, st: DecodeState)
    requires
        counted(s, st),
    ensures
        end_letter(st) matches Ok(x) ==> counted(s, x) && x.code.len() == 0 && x.run == st.run && x.pending == st.pending,
{
    if st.code.len() > 0 {
        if let Some(l) = letter_of(st.code) {
            assert(is_known_code(st.code));
            let d = choose|d: char| is_table_letter(d) && code_of(d) == st.code;
            assert(l == d);
            let o2 = st.out.push(l);
            assert(o2.drop_last() == st.out);
            assert forall|i: int| 0 <= i < o2.len() implies is_decoded_char(#[trigger] o2[i]) by {
                if i < st.out.len() {
                    assert(o2[i] == st.out[i]);
                }
            }
        }
    }
}

proof fn lemma_decode_counted(s: Seq<char>)
    ensures
        decode_prefix(s) matches Ok(st) ==> counted(s, st),
    decreases s.len(),
{
    if s.len() == 0 {
    } else {
        let p = s.drop_last();
        let c = s.last();
        lemma_decode_counted(p);
        if let Ok(st) = decode_prefix(p) {
            assert(signal_count(s) == signal_count(p) + if is_signal_char(c) { 1nat } else { 0nat });
            if crate::text::is_ascii_ws(c) {
                lemma_end_letter_counted(p, st);
            } else {
                let st2 = end_run(st);
                assert(counted(p, st2));
                match signal_of(c) {
                    Some(sig) => {
                        if st2.code.len() == 0 {
                            lemma_gap_keeps(st2.out, st2.pending);
                            assert(seq![sig].len() == 1);
                        } else {
                            let c2 = st2.code.push(sig);
                            assert forall|i: int| 0 <= i < c2.len() implies (#[trigger] c2[i] == '.' || c2[i] == '-') by {
                                if i < st2.code.len() {
                                    assert(c2[i] == st2.code[i]);
                                }
                            }
                        }
                    },
                    None => {
                        if c == '/' {
                            lemma_end_letter_counted(p, st2);
                        }
                    },
                }
            }
        }
    }
}

/// The Morse codes of the table letters are made of dots and dashes.
proof fn lemma_code_signals(c: char)
    requires
        is_table_letter(c),
    ensures
        signal_count(code_of(c)) == code_of(c).len(),
{
    lemma_alnum_upper(c);
    assert(ascii_upper(c) == c);
    lemma_all_signals_count(code_of(c));
}

proof fn lemma_all_signals_count(k: Seq<char>)
    requires
        forall|j: int| 0 <= j < k.len() ==> (#[trigger] k[j] == '.' || k[j] == '-'),
    ensures
        signal_count(k) == k.len(),
    decreases k.len(),
{
    if k.len() > 0 {
        let p = k.drop_last();
        assert forall|j: int| 0 <= j < p.len() implies (#[trigger] p[j] == '.' || p[j] == '-') by {
            assert(p[j] == k[j]);
        }
        lemma_all_signals_count(p);
        assert(k.last() == k[k.len() - 1]);
    }
}

/// The signals of all the parts.
pub open spec fn signals_in(parts: Seq<Seq<char>>) -> nat
    decreases parts.len(),
{
    if parts.len() == 0 {
        0
    } else {
        signals_in(parts.drop_last()) + signal_count(parts.last())
    }
}

proof fn lemma_count_join(parts: Seq<Seq<char>>, sep: Seq<char>)
    requires
        signal_count(sep) == 0,
    ensures
        signal_count(join(parts, sep)) == signals_in(parts),
    decreases parts.len(),
{
    if parts.len() == 1 {
        assert(parts.drop_last().len() == 0);
        assert(signals_in(parts.drop_last()) == 0);
        assert(parts.last() == parts[0]);
    } else if parts.len() > 1 {
        let p = parts.drop_last();
        lemma_count_join(p, sep);
        lemma_count_concat(join(p, sep) + sep, parts.last());
        lemma_count_concat(join(p, sep), sep);
    }
}

proof fn lemma_spaces_count(n: nat)
    ensures
        signal_count(Seq::new(n, |i: int| ' ')) == 0,
    decreases n,
{
    if n > 0 {
        lemma_spaces_count((n - 1) as nat);
        assert(Seq::new(n, |i: int| ' ').drop_last() =~= Seq::new((n - 1) as nat, |i: int| ' '));
    }
}

proof fn lemma_word_signals(w: Seq<char>)
    requires
        forall|j: int| 0 <= j < w.len() ==> is_table_letter(#[trigger] w[j]),
    ensures
        signal_count(encode_word(w)) == signal_weight(w),
    decreases w.len(),
{
    let sp: Seq<char> = seq![' '];
    assert(sp =~= Seq::new(1, |i: int| ' '));
    lemma_spaces_count(1);
    lemma_count_join(letter_codes(w), sp);
    lemma_letter_signals(w);
}

proof fn lemma_letter_signals(w: Seq<char>)
    requires
        forall|j: int| 0 <= j < w.len() ==> is_table_letter(#[trigger] w[j]),
    ensures
        signals_in(letter_codes(w)) == signal_weight(w),
    decreases w.len(),
{
    if w.len() > 0 {
        let p = w.drop_last();
        let c = w.last();
        assert forall|j: int| 0 <= j < p.len() implies is_table_letter(#[trigger] p[j]) by {
            assert(p[j] == w[j]);
        }
        lemma_letter_signals(p);
        assert(w == p.push(c));
        lemma_letter_codes_push(p, c);
        assert(letter_codes(w).drop_last() == letter_codes(p));
        assert(is_table_letter(w[w.len() - 1]));
        lemma_code_signals(c);
        assert(ascii_upper(c) == c);
    }
}

/// The weights of the words.
pub open spec fn weight_in(ws: Seq<Seq<char>>) -> nat
    decreases ws.len(),
{
    if ws.len() == 0 {
        0
    } else {
        weight_in(ws.drop_last()) + signal_weight(ws.last())
    }
}

proof fn lemma_weight_split(s: Seq<char>)
    ensures
        signal_weight(s) == weight_in(split_state(s).0) + signal_weight(split_state(s).1),
    decreases s.len(),
{
    if s.len() > 0 {
        let p = s.drop_last();
        let c = s.last();
        lemma_weight_split(p);
        let (done, cur) = split_state(p);
        if is_whitespace(c) {
            assert(!is_table_letter(c));
            if cur.len() > 0 {
                assert(done.push(cur).drop_last() == done);
            }
        } else {
            assert(cur.push(c).drop_last() == cur);
        }
    }
}

proof fn lemma_words_signals(ws: Seq<Seq<char>>)
    requires
        forall|k: int, j: int| 0 <= k < ws.len() && 0 <= j < ws[k].len() ==> is_table_letter(#[trigger] ws[k][j]),
    ensures
        signals_in(word_codes(ws)) == weight_in(ws),
    decreases ws.len(),
{
    if ws.len() > 0 {
        let p = ws.drop_last();
        let w = ws.last();
        assert forall|k: int, j: int| 0 <= k < p.len() && 0 <= j < p[k].len() implies is_table_letter(#[trigger] p[k][j]) by {
            assert(p[k] == ws[k]);
        }
        lemma_words_signals(p);
        assert(ws == p.push(w));
        lemma_word_codes_push(p, w);
        assert(word_codes(ws).drop_last() == word_codes(p));
        assert forall|j: int| 0 <= j < w.len() implies is_table_letter(#[trigger] w[j]) by {
            assert(w == ws[ws.len() - 1]);
            assert(is_table_letter(ws[ws.len() - 1][j]));
        }
        lemma_word_signals(w);
    }
}

/// When every character of `s` satisfies `pred`, so does every character of its words.
proof fn lemma_split_pred(s: Seq<char>, pred: spec_fn(char) -> bool)
    requires
        forall|j: int| 0 <= j < s.len() ==> pred(#[trigger] s[j]),
    ensures
        forall|k: int, j: int| 0 <= k < split_state(s).0.len() && 0 <= j < split_state(s).0[k].len()
            ==> pred(#[trigger] split_state(s).0[k][j]),
        forall|j: int| 0 <= j < split_state(s).1.len() ==> pred(#[trigger] split_state(s).1[j]),
    decreases s.len(),
{
    if s.len() > 0 {
        let p = s.drop_last();
        assert forall|j: int| 0 <= j < p.len() implies pred(#[trigger] p[j]) by {
            assert(p[j] == s[j]);
        }
        lemma_split_pred(p, pred);
        let (done, cur) = split_state(p);
        let c = s.last();
        assert(pred(s[s.len() - 1]));
        if is_whitespace(c) {
            if cur.len() > 0 {
                let d2 = done.push(cur);
                assert forall|k: int, j: int| 0 <= k < d2.len() && 0 <= j < d2[k].len() implies pred(#[trigger] d2[k][j]) by {
                    if k < done.len() {
                        assert(d2[k] == done[k]);
                    } else {
                        assert(d2[k] == cur);
                    }
                }
            }
        } else {
            let c2 = cur.push(c);
            assert forall|j: int| 0 <= j < c2.len() implies pred(#[trigger] c2[j]) by {
                if j < cur.len() {
                    assert(c2[j] == cur[j]);
                }
            }
        }
    }
}

/// Decoded Morse always encodes again, with exactly as many signals as the
/// Morse it came from.
pub proof fn law_reencoding_keeps_signals(m: Seq<char>)
    requires
        decode_spec(m) is Ok,
    ensures
        first_unsupported(decode_spec(m)->Ok_0) is None,
        signal_count(encode_spec(decode_spec(m)->Ok_0)) == signal_count(m),
{
    lemma_decode_counted(m);
    let st = decode_prefix(m)->Ok_0;
    lemma_end_letter_counted(m, st);
    let t = decode_spec(m)->Ok_0;
    assert(counted(m, end_letter(st)->Ok_0));
    assert(forall|i: int| 0 <= i < t.len() ==> is_decoded_char(#[trigger] t[i]));
    assert(forall|j: int| 0 <= j < t.len() ==> !is_unsupported(#[trigger] t[j]));
    lemma_good_has_no_unsupported(t, 0);
    // Every word of the text is made of table letters.
    lemma_split_pred(t, |c: char| is_decoded_char(c));
    lemma_words_shape(t);
    let ws = words(t);
    let (done, cur) = split_state(t);
    assert forall|k: int, j: int| 0 <= k < ws.len() && 0 <= j < ws[k].len() implies is_table_letter(#[trigger] ws[k][j]) by {
        if k < done.len() {
            assert(ws[k] == done[k]);
            assert(is_decoded_char(done[k][j]));
        } else {
            assert(ws[k] == cur);
            assert(is_decoded_char(cur[j]));
        }
        assert(!is_whitespace(ws[k][j]));
    }
    lemma_words_signals(ws);
    let ss: Seq<char> = seq![' ', ' '];
    assert(ss =~= Seq::new(2, |i: int| ' '));
    lemma_spaces_count(2);
    lemma_count_join(word_codes(ws), ss);
    lemma_weight_split(t);
    if cur.len() > 0 {
        assert(done.push(cur).drop_last() == done);
    } else {
        assert(cur =~= Seq::<char>::empty());
    }
}

/// The wider of two gaps.
pub open spec fn widest(a: MorseGap, b: MorseGap) -> MorseGap {
    if gap_rank(a) >= gap_rank(b) {
        a
    } else {
        b
    }
}

/// What separates letters: whitespace and `/`.
pub open spec fn is_separator_char(c: char) -> bool {
    crate::text::is_ascii_ws(c) || c == '/'
}

/// The whitespace run that starts at `j` ends within `s`, past `j` when `s[j]` is whitespace.
pub proof fn lemma_run_end_bounds(s: Seq<char>, j: int)
    requires
        0 <= j <= s.len(),
    ensures
        j <= run_end(s, j) <= s.len(),
        j < s.len() && crate::text::is_ascii_ws(s[j]) ==> j < run_end(s, j),
        forall|i: int| j <= i < run_end(s, j) ==> crate::text::is_ascii_ws(#[trigger] s[i]),
        run_end(s, j) < s.len() ==> !crate::text::is_ascii_ws(s[run_end(s, j)]),
    decreases s.len() - j,
{
    if j < s.len() && crate::text::is_ascii_ws(s[j]) {
        lemma_run_end_bounds(s, j + 1);
    }
}

/// The gap that a separator stands for: the widest of the gaps of its
/// whitespace runs (one space a letter gap, two spaces a word gap, any other
/// run a paragraph gap) and of its slashes (each a word gap).
pub open spec fn separator_gap(sep: Seq<char>) -> MorseGap
    decreases sep.len(),
{
    if sep.len() == 0 {
        MorseGap::Letter
    } else if sep[0] == '/' {
        widest(MorseGap::Word, separator_gap(sep.drop_first()))
    } else if crate::text::is_ascii_ws(sep[0]) {
        let e = run_end(sep, 0);
        proof {
            lemma_run_end_bounds(sep, 0);
        }
        widest(run_gap(sep.subrange(0, e)), separator_gap(sep.subrange(e, sep.len() as int)))
    } else {
        MorseGap::Letter
    }
}

/// The text between two decoded letters for a gap: nothing, a space, or a blank line.
pub open spec fn gap_text(g: MorseGap) -> Seq<char> {
    match g {
        MorseGap::Letter => Seq::empty(),
        MorseGap::Word => seq![' '],
        MorseGap::Paragraph => seq!['\n', '\n'],
    }
}

proof fn lemma_end_run_idem(st: DecodeState)
    ensures
        end_run(end_run(st)) == end_run(st),
{
}

/// Reading a character other than whitespace ends the whitespace run first.
proof fn lemma_nonws_ends_run(st: DecodeState, s: Seq<char>)
    requires
        s.len() > 0,
        !crate::text::is_ascii_ws(s[0]),
    ensures
        decode_from(st, s) == decode_from(end_run(st), s),
{
    let head: Seq<char> = seq![s[0]];
    let rest = s.drop_first();
    assert(s == head + rest);
    lemma_decode_from_concat(st, head, rest);
    lemma_decode_from_concat(end_run(st), head, rest);
    lemma_decode_one(st, s[0]);
    lemma_decode_one(end_run(st), s[0]);
    lemma_end_run_idem(st);
}

/// Reading a separator ends the letter being read first.
proof fn lemma_separator_ends_letter(st: DecodeState, s: Seq<char>)
    requires
        s.len() > 0,
        is_separator_char(s[0]),
        st.run.len() == 0,
    ensures
        decode_from(st, s) == match end_letter(st) {
            Ok(x) => decode_from(x, s),
            Err(e) => Err(e),
        },
{
    let head: Seq<char> = seq![s[0]];
    let rest = s.drop_first();
    assert(s == head + rest);
    lemma_decode_from_concat(st, head, rest);
    lemma_decode_one(st, s[0]);
    if let Ok(x) = end_letter(st) {
        lemma_decode_from_concat(x, head, rest);
        lemma_decode_one(x, s[0]);
        assert(end_letter(x) == Ok::<DecodeState, Seq<char>>(x));
    }
}

/// The gap widened by `g`, when there is one.
pub open spec fn widen(p: Option<MorseGap>, g: MorseGap) -> MorseGap {
    match p {
        Some(q) => widest(q, g),
        None => g,
    }
}

/// Reading a whitespace run with no letter begun collects the run.
proof fn lemma_read_run(st: DecodeState, run: Seq<char>)
    requires
        st.code.len() == 0,
        st.run.len() == 0,
        run.len() > 0,
        forall|j: int| 0 <= j < run.len() ==> crate::text::is_ascii_ws(#[trigger] run[j]),
    ensures
        decode_from(st, run) == Ok::<DecodeState, Seq<char>>(DecodeState { run: run, ..st }),
    decreases run.len(),
{
    let p = run.drop_last();
    assert(run.last() == run[run.len() - 1]);
    if p.len() == 0 {
        assert(decode_from(st, p) == Ok::<DecodeState, Seq<char>>(st));
        assert(run =~= seq![run.last()]);
        assert(end_letter(st) == Ok::<DecodeState, Seq<char>>(st));
        assert(st.run.push(run.last()) =~= run);
    } else {
        assert forall|j: int| 0 <= j < p.len() implies crate::text::is_ascii_ws(#[trigger] p[j]) by {
            assert(p[j] == run[j]);
        }
        lemma_read_run(st, p);
        let x = DecodeState { run: p, ..st };
        assert(end_letter(x) == Ok::<DecodeState, Seq<char>>(x));
        assert(p.push(run.last()) =~= run);
    }
}

/// Reading a separator with no letter begun leaves the text as it is and
/// widens the pending gap by the separator's gap.
proof fn lemma_read_separator(st: DecodeState, sep: Seq<char>)
    requires
        st.code.len() == 0,
        st.run.len() == 0,
        sep.len() > 0,
        forall|j: int| 0 <= j < sep.len() ==> is_separator_char(#[trigger] sep[j]),
    ensures
        decode_from(st, sep) is Ok,
        decode_from(st, sep)->Ok_0.out == st.out,
        decode_from(st, sep)->Ok_0.code.len() == 0,
        end_run(decode_from(st, sep)->Ok_0).pending == Some(widen(st.pending, separator_gap(sep))),
    decreases sep.len(),
{
    let rest = sep.drop_first();
    assert forall|j: int| 0 <= j < rest.len() implies is_separator_char(#[trigger] rest[j]) by {
        assert(rest[j] == sep[j + 1]);
    }
    if sep[0] == '/' {
        let head: Seq<char> = seq!['/'];
        assert(sep == head + rest);
        lemma_decode_from_concat(st, head, rest);
        lemma_decode_one(st, '/');
        let e1 = DecodeState { pending: Some(wider_gap(st.pending, MorseGap::Word)), ..st };
        assert(decode_step(st, '/') == Ok::<DecodeState, Seq<char>>(e1));
        if rest.len() == 0 {
            assert(decode_from(e1, rest) == Ok::<DecodeState, Seq<char>>(e1));
        } else {
            lemma_read_separator(e1, rest);
        }
    } else {
        lemma_run_end_bounds(sep, 0);
        let e = run_end(sep, 0);
        let run = sep.subrange(0, e);
        let after = sep.subrange(e, sep.len() as int);
        assert(sep == run + after);
        assert forall|j: int| 0 <= j < run.len() implies crate::text::is_ascii_ws(#[trigger] run[j]) by {
            assert(run[j] == sep[j]);
        }
        lemma_read_run(st, run);
        lemma_decode_from_concat(st, run, after);
        let r = DecodeState { run: run, ..st };
        let e2 = end_run(r);
        if after.len() == 0 {
            assert(decode_from(r, after) == Ok::<DecodeState, Seq<char>>(r));
        } else {
            assert(after[0] == sep[e]);
            lemma_nonws_ends_run(r, after);
            assert forall|j: int| 0 <= j < after.len() implies is_separator_char(#[trigger] after[j]) by {
                assert(after[j] == sep[e + j]);
            }
            lemma_read_separator(e2, after);
        }
    }
}

/// Reading the signals of a letter, in either symbol set, from a state with
/// no letter begun.
proof fn lemma_read_signals(st: DecodeState, k: Seq<char>)
    requires
        st.code.len() == 0,
        k.len() > 0,
        forall|j: int| 0 <= j < k.len() ==> #[trigger] signal_of(k[j]) is Some,
    ensures
        decode_from(st, k) == Ok::<DecodeState, Seq<char>>(DecodeState {
            out: with_gap(st.out, end_run(st).pending),
            code: plain_symbols(k),
            pending: None,
            run: Seq::empty(),
        }),
    decreases k.len(),
{
    let p = k.drop_last();
    let c = k.last();
    assert(c == k[k.len() - 1]);
    assert(signal_of(c) is Some);
    assert(signal_of(c) == Some(plain_symbol(c)));
    if p.len() == 0 {
        assert(decode_from(st, p) == Ok::<DecodeState, Seq<char>>(st));
        let st2 = end_run(st);
        assert(st2.run =~= Seq::<char>::empty());
        assert(plain_symbols(k) =~= seq![plain_symbol(c)]);
    } else {
        assert forall|j: int| 0 <= j < p.len() implies #[trigger] signal_of(p[j]) is Some by {
            assert(p[j] == k[j]);
        }
        lemma_read_signals(st, p);
        assert(plain_symbols(k) =~= plain_symbols(p).push(plain_symbol(c)));
    }
}

/// Letters laid out as Morse: `codes[i]` (dots and dashes in either symbol
/// set) is the code of `letters[i]`, and `seps[i]` (whitespace and `/`) comes
/// before it, with `seps[codes.len()]` after the last; separators between
/// two letters are not empty.
pub open spec fn is_letter_layout(seps: Seq<Seq<char>>, codes: Seq<Seq<char>>, letters: Seq<char>) -> bool {
    &&& codes.len() == letters.len()
    &&& seps.len() == codes.len() + 1
    &&& forall|i: int| 0 <= i < codes.len() ==> (#[trigger] codes[i]).len() > 0
    &&& forall|i: int, j: int| 0 <= i < codes.len() && 0 <= j < codes[i].len() ==> #[trigger] signal_of(codes[i][j]) is Some
    &&& forall|i: int| 0 <= i < codes.len() ==> letter_of(plain_symbols(#[trigger] codes[i])) == Some(letters[i])
    &&& forall|i: int, j: int| 0 <= i < seps.len() && 0 <= j < seps[i].len() ==> is_separator_char(#[trigger] seps[i][j])
    &&& forall|i: int| 0 < i < codes.len() ==> (#[trigger] seps[i]).len() > 0
}

/// The Morse of the first `k` letters of a layout, with the separator before each.
pub open spec fn layout_prefix(seps: Seq<Seq<char>>, codes: Seq<Seq<char>>, k: int) -> Seq<char>
    decreases k,
{
    if k <= 0 {
        seps[0]
    } else if k == 1 {
        seps[0] + codes[0]
    } else {
        layout_prefix(seps, codes, k - 1) + seps[k - 1] + codes[k - 1]
    }
}

/// The Morse of a whole layout.
pub open spec fn layout_morse(seps: Seq<Seq<char>>, codes: Seq<Seq<char>>) -> Seq<char> {
    if codes.len() == 0 {
        seps[0]
    } else {
        layout_prefix(seps, codes, codes.len() as int) + seps[codes.len() as int]
    }
}

/// The first `k` letters, each two separated by the text of the gap that
/// the separator between them stands for.
pub open spec fn layout_reading(seps: Seq<Seq<char>>, letters: Seq<char>, k: int) -> Seq<char>
    decreases k,
{
    if k <= 0 {
        Seq::empty()
    } else if k == 1 {
        seq![letters[0]]
    } else {
        layout_reading(seps, letters, k - 1) + gap_text(separator_gap(seps[k - 1])) + seq![letters[k - 1]]
    }
}

proof fn lemma_gap_after_letter(o: Seq<char>, g: MorseGap)
    requires
        o.len() > 0,
        is_table_letter(o.last()),
    ensures
        with_gap(o, Some(g)) == o + gap_text(g),
{
    assert(o.last() != ' ' && o.last() != '\n');
    match g {
        MorseGap::Letter => {
            assert(o + Seq::<char>::empty() =~= o);
        },
        MorseGap::Word => {
            assert(o.push(' ') =~= o + seq![' ']);
        },
        MorseGap::Paragraph => {
            assert(trim_trailing_spaces(o) == o);
        },
    }
}

proof fn lemma_layout_letter(letters: Seq<char>, codes: Seq<Seq<char>>, i: int)
    requires
        0 <= i < codes.len(),
        letter_of(plain_symbols(codes[i])) == Some(letters[i]),
    ensures
        is_table_letter(letters[i]),
{
    let k = plain_symbols(codes[i]);
    assert(is_known_code(k));
    let d = choose|d: char| is_table_letter(d) && code_of(d) == k;
    assert(letters[i] == d);
}

proof fn lemma_layout_prefix(seps: Seq<Seq<char>>, codes: Seq<Seq<char>>, letters: Seq<char>, k: int)
    requires
        is_letter_layout(seps, codes, letters),
        1 <= k <= codes.len(),
    ensures
        layout_reading(seps, letters, k).len() > 0,
        layout_reading(seps, letters, k).last() == letters[k - 1],
        decode_prefix(layout_prefix(seps, codes, k)) == Ok::<DecodeState, Seq<char>>(DecodeState {
            out: layout_reading(seps, letters, k).drop_last(),
            code: plain_symbols(codes[k - 1]),
            pending: None,
            run: Seq::empty(),
        }),
    decreases k,
{
    let init = initial_state();
    assert(codes[k - 1].len() > 0);
    assert forall|j: int| 0 <= j < codes[k - 1].len() implies #[trigger] signal_of(codes[k - 1][j]) is Some by {
        assert(signal_of(codes[k - 1][j]) is Some);
    }
    if k == 1 {
        let s0 = seps[0];
        let c0 = codes[0];
        assert(layout_reading(seps, letters, 1) == seq![letters[0]]);
        assert(seq![letters[0]].drop_last() =~= Seq::<char>::empty());
        if s0.len() == 0 {
            assert(s0 + c0 == c0);
            lemma_read_signals(init, c0);
        } else {
            assert forall|j: int| 0 <= j < s0.len() implies is_separator_char(#[trigger] s0[j]) by {
                assert(is_separator_char(seps[0][j]));
            }
            lemma_read_separator(init, s0);
            lemma_decode_from_concat(init, s0, c0);
            let r = decode_from(init, s0)->Ok_0;
            assert(signal_of(c0[0]) is Some);
            lemma_nonws_ends_run(r, c0);
            lemma_read_signals(end_run(r), c0);
        }
    } else {
        lemma_layout_prefix(seps, codes, letters, k - 1);
        let a = layout_prefix(seps, codes, k - 1);
        let sep = seps[k - 1];
        let c = codes[k - 1];
        let before = layout_reading(seps, letters, k - 1);
        let l = letters[k - 2];
        lemma_layout_letter(letters, codes, k - 2);
        let sk = DecodeState { out: before.drop_last(), code: plain_symbols(codes[k - 2]), pending: None, run: Seq::empty() };
        assert(sep.len() > 0);
        assert forall|j: int| 0 <= j < sep.len() implies is_separator_char(#[trigger] sep[j]) by {
            assert(is_separator_char(seps[k - 1][j]));
        }
        lemma_decode_from_concat(init, a + sep, c);
        lemma_decode_from_concat(init, a, sep);
        lemma_separator_ends_letter(sk, sep);
        assert(plain_symbols(codes[k - 2]).len() > 0);
        let x = DecodeState { out: before.drop_last().push(l), code: Seq::empty(), pending: None, run: Seq::empty() };
        assert(end_letter(sk) == Ok::<DecodeState, Seq<char>>(x));
        assert(before.drop_last().push(l) =~= before);
        lemma_read_separator(x, sep);
        let r = decode_from(x, sep)->Ok_0;
        let g = separator_gap(sep);
        assert(signal_of(c[0]) is Some);
        lemma_decode_from_concat(x, sep, c);
        lemma_nonws_ends_run(r, c);
        lemma_read_signals(end_run(r), c);
        lemma_gap_after_letter(before, g);
        let now = layout_reading(seps, letters, k);
        assert(now == before + gap_text(g) + seq![letters[k - 1]]);
        assert(now.drop_last() =~= before + gap_text(g));
    }
}

/// Decoding reads each run of signals as its letter, and puts between two
/// letters the text of the gap that the separator between them stands for:
/// nothing for one space, a space for two spaces or a `/`, a blank line for
/// any longer run or one with a tab or line break, the widest where a
/// separator mixes them. Separators before the first letter and after the
/// last add nothing.
pub proof fn law_decode_reads_letters(seps: Seq<Seq<char>>, codes: Seq<Seq<char>>, letters: Seq<char>)
    requires
        is_letter_layout(seps, codes, letters),
    ensures
        decode_spec(layout_morse(seps, codes)) == Ok::<Seq<char>, Seq<char>>(
            layout_reading(seps, letters, letters.len() as int),
        ),
{
    let init = initial_state();
    let n = codes.len() as int;
    let last_sep = seps[n];
    assert forall|j: int| 0 <= j < last_sep.len() implies is_separator_char(#[trigger] last_sep[j]) by {
        assert(is_separator_char(seps[n][j]));
    }
    if n == 0 {
        if last_sep.len() == 0 {
            assert(decode_prefix(last_sep) == Ok::<DecodeState, Seq<char>>(init));
        } else {
            lemma_read_separator(init, last_sep);
        }
    } else {
        lemma_layout_prefix(seps, codes, letters, n);
        let a = layout_prefix(seps, codes, n);
        let before = layout_reading(seps, letters, n);
        let l = letters[n - 1];
        let sn = DecodeState { out: before.drop_last(), code: plain_symbols(codes[n - 1]), pending: None, run: Seq::empty() };
        assert(codes[n - 1].len() > 0);
        assert(plain_symbols(codes[n - 1]).len() > 0);
        assert(before.drop_last().push(l) =~= before);
        let x = DecodeState { out: before, code: Seq::empty(), pending: None, run: Seq::empty() };
        assert(end_letter(sn) == Ok::<DecodeState, Seq<char>>(x));
        if last_sep.len() == 0 {
            assert(a + last_sep == a);
        } else {
            lemma_decode_from_concat(init, a, last_sep);
            lemma_separator_ends_letter(sn, last_sep);
            lemma_read_separator(x, last_sep);
        }
    }
}

proof fn lemma_alnum_content_upper(s: Seq<char>)
    ensures
        forall|i: int| 0 <= i < alnum_content(s).len() ==> ({
            let c = #[trigger] alnum_content(s)[i];
            is_ascii_alnum(c) && !('a' <= c && c <= 'z')
        }),
    decreases s.len(),
{
    if s.len() > 0 {
        lemma_alnum_content_upper(s.drop_last());
        let p = alnum_content(s.drop_last());
        if is_ascii_alnum(s.last()) {
            let q = p.push(ascii_upper(s.last()));
            assert forall|i: int| 0 <= i < q.len() implies ({
                let c = #[trigger] q[i];
                is_ascii_alnum(c) && !('a' <= c && c <= 'z')
            }) by {
                if i < p.len() {
                    assert(q[i] == p[i]);
                }
            }
        }
    }
}

/// An exam accepts the answer it shows as expected: the letters and digits
/// of the expected answer are exactly those the exam expects, in either
/// direction. The expected letters and digits hold no lower-case letter, so
/// a question typed in any case is answered alike.
pub proof fn law_exam_accepts_its_answer(direction: ExamDirection, question: Seq<char>)
    ensures
        exam_question_spec(direction, question) matches Ok((expected, answer, morse)) ==> {
            &&& answer_content_spec(direction, answer) == expected
            &&& forall|i: int| 0 <= i < expected.len() ==> ({
                let c = #[trigger] expected[i];
                is_ascii_alnum(c) && !('a' <= c && c <= 'z')
            })
        },
{
    if let Ok((expected, answer, morse)) = exam_question_spec(direction, question) {
        match direction {
            ExamDirection::Encode => {
                law_exam_accepts_expected_morse(question);
                lemma_alnum_content_upper(question);
            },
            ExamDirection::Decode => {
                let text = decode_spec(question)->Ok_0;
                lemma_alnum_content_upper(text);
            },
        }
    }
}

/// In an encoding exam, a question of letters and digits in any case is
/// judged by its letters and digits in upper case: the question and its
/// upper-case form set the same exam.
pub proof fn law_exam_ignores_question_case(question: Seq<char>)
    ensures
        exam_question_spec(ExamDirection::Encode, question.map_values(|c: char| ascii_upper(c)))
            == exam_question_spec(ExamDirection::Encode, question),
{
    law_encode_ignores_case(question);
    let up = question.map_values(|c: char| ascii_upper(c));
    assert(alnum_content(up) == alnum_content(question)) by {
        lemma_alnum_content_map_upper(question);
    }
}

proof fn lemma_alnum_content_map_upper(s: Seq<char>)
    ensures
        alnum_content(s.map_values(|c: char| ascii_upper(c))) == alnum_content(s),
    decreases s.len(),
{
    if s.len() > 0 {
        let p = s.drop_last();
        lemma_alnum_content_map_upper(p);
        let up = s.map_values(|c: char| ascii_upper(c));
        assert(up.drop_last() =~= p.map_values(|c: char| ascii_upper(c)));
        assert(up.last() == ascii_upper(s.last()));
    } else {
        assert(s.map_values(|c: char| ascii_upper(c)) =~= Seq::<char>::empty());
    }
}

/// The sound of one letter's code `k`: at even positions the tones of its
/// signals in order, a dot one unit and a dash three; at odd positions, one
/// unit of silence between two signals.
pub open spec fn letter_sound(k: Seq<char>) -> Seq<(bool, nat)> {
    Seq::new(
        (2 * k.len() - 1) as nat,
        |p: int| if p % 2 == 0 { (true, if k[p / 2] == '.' { 1nat } else { 3nat }) } else { (false, 1nat) },
    )
}

proof fn lemma_letter_sound_step(k: Seq<char>)
    requires
        k.len() >= 2,
    ensures
        letter_sound(k) == seq![(true, if k[0] == '.' { 1nat } else { 3nat }), (false, 1nat)] + letter_sound(k.drop_first()),
{
    let head = seq![(true, if k[0] == '.' { 1nat } else { 3nat }), (false, 1nat)];
    let rest = k.drop_first();
    let rhs = head + letter_sound(rest);
    assert forall|p: int| 0 <= p < letter_sound(k).len() implies #[trigger] letter_sound(k)[p] == rhs[p] by {
        if p >= 2 {
            assert((p - 2) % 2 == p % 2);
            assert((p - 2) / 2 == p / 2 - 1);
            assert(rest[(p - 2) / 2] == k[p / 2]);
            assert(rhs[p] == letter_sound(rest)[p - 2]);
        }
    }
    assert(letter_sound(k) =~= rhs);
}

/// The plan of a letter's code from its `i`-th signal.
proof fn lemma_letter_plan_from(k: Seq<char>, i: int)
    requires
        0 <= i < k.len(),
        forall|j: int| 0 <= j < k.len() ==> is_dot_or_dash(#[trigger] k[j]),
    ensures
        plan_from(k, i) == letter_sound(k.subrange(i, k.len() as int)),
    decreases k.len() - i,
{
    let tail = k.subrange(i, k.len() as int);
    let tone = seq![(true, if k[i] == '.' { 1nat } else { 3nat })];
    assert(is_dot_or_dash(k[i]));
    if i + 1 < k.len() {
        assert(is_dot_or_dash(k[i + 1]));
        lemma_letter_plan_from(k, i + 1);
        lemma_letter_sound_step(tail);
        assert(tail.drop_first() =~= k.subrange(i + 1, k.len() as int));
        assert(plan_from(k, i) == tone + seq![(false, 1nat)] + plan_from(k, i + 1));
        assert(tone + seq![(false, 1nat)] + plan_from(k, i + 1) =~= seq![(true, if tail[0] == '.' { 1nat } else { 3nat }), (false, 1nat)] + letter_sound(tail.drop_first()));
    } else {
        assert(plan_from(k, i + 1) == Seq::<(bool, nat)>::empty());
        assert(plan_from(k, i) == tone + plan_from(k, i + 1));
        assert(letter_sound(tail) =~= tone);
    }
}

/// Within a letter one unit of silence separates two signals, whether the
/// first is a dot or a dash: where a signal follows the signal at `i`, the
/// sound from `i` opens with that signal's tone (one unit for a dot, three
/// for a dash) and then one unit of silence.
pub proof fn law_signals_one_unit_apart(s: Seq<char>, i: int)
    requires
        0 <= i,
        i + 1 < s.len(),
        is_dot_or_dash(s[i]),
        is_dot_or_dash(s[i + 1]),
    ensures
        plan_from(s, i).len() >= 2,
        plan_from(s, i)[0] == (true, if s[i] == '.' { 1nat } else { 3nat }),
        plan_from(s, i)[1] == (false, 1nat),
{
    let tone = seq![(true, if s[i] == '.' { 1nat } else { 3nat })];
    assert(plan_from(s, i) == tone + seq![(false, 1nat)] + plan_from(s, i + 1));
}

/// The sound of a letter's code alone: its signals in order, a dot one unit
/// and a dash three, with one unit of silence between each two and none
/// after the last; rendered, each of those silences is one unit of samples.
pub proof fn law_letter_sound(k: Seq<char>, segments: Seq<Segment>, unit: nat)
    requires
        k.len() > 0,
        forall|j: int| 0 <= j < k.len() ==> is_dot_or_dash(#[trigger] k[j]),
    ensures
        plan_from(k, 0) == letter_sound(k),
        sounds_out(segments, plan_from(k, 0), unit) ==> forall|p: int|
            0 <= p < segments.len() && p % 2 == 1 ==> !(#[trigger] segments[p]).tone && segments[p].samples == unit,
{
    lemma_letter_plan_from(k, 0);
    assert(k.subrange(0, k.len() as int) =~= k);
    if sounds_out(segments, plan_from(k, 0), unit) {
        assert forall|p: int| 0 <= p < segments.len() && p % 2 == 1 implies !(#[trigger] segments[p]).tone && segments[p].samples == unit by {
            assert(letter_sound(k)[p] == (false, 1nat));
            assert(plan_from(k, 0)[p] == (false, 1nat));
            assert(segments[p].tone == plan_from(k, 0)[p].0);
        }
    }
}

/// Three units of silence between letters and seven between words: after a
/// signal, one space and then the next letter give three units of silence;
/// two spaces, or a `/`, give seven.
pub proof fn law_gap_silences(s: Seq<char>, i: int)
    requires
        0 <= i,
        i + 2 < s.len(),
        is_dot_or_dash(s[i]),
    ensures
        s[i + 1] == ' ' && !is_ascii_ws(s[i + 2]) ==> plan_from(s, i).len() >= 2 && plan_from(s, i)[1] == (false, 3nat),
        s[i + 1] == '/' ==> plan_from(s, i).len() >= 2 && plan_from(s, i)[1] == (false, 7nat),
        i + 3 < s.len() && s[i + 1] == ' ' && s[i + 2] == ' ' && !is_ascii_ws(s[i + 3]) ==> plan_from(s, i).len() >= 2
            && plan_from(s, i)[1] == (false, 7nat),
{
    let tone = seq![(true, if s[i] == '.' { 1nat } else { 3nat })];
    if s[i + 1] == ' ' && !is_ascii_ws(s[i + 2]) {
        assert(run_end(s, i + 2) == i + 2);
        assert(run_end(s, i + 1) == i + 2);
        assert(s.subrange(i + 1, i + 2) =~= seq![' ']);
        assert(plan_after_run(s, i) == tone + seq![(false, 3nat)] + plan_from(s, i + 2));
    }
    if s[i + 1] == '/' {
        assert(plan_from(s, i) == tone + seq![(false, 7nat)] + plan_from(s, i + 2));
    }
    if i + 3 < s.len() && s[i + 1] == ' ' && s[i + 2] == ' ' && !is_ascii_ws(s[i + 3]) {
        assert(run_end(s, i + 3) == i + 3);
        assert(run_end(s, i + 2) == i + 3);
        assert(run_end(s, i + 1) == i + 3);
        assert(s.subrange(i + 1, i + 3) =~= seq![' ', ' ']);
        assert(plan_after_run(s, i) == tone + seq![(false, 7nat)] + plan_from(s, i + 3));
    }
}

/// A unit holds the samples that `unit_ms` milliseconds last at
/// `sample_rate` samples a second, rounded down, and never fewer than one.
pub proof fn law_unit_samples(sample_rate: u32, unit_ms: u32)
    ensures
        unit_samples_spec(sample_rate, unit_ms) >= 1,
        sample_rate * unit_ms >= 1000 ==> unit_samples_spec(sample_rate, unit_ms) * 1000 <= sample_rate * unit_ms
            < (unit_samples_spec(sample_rate, unit_ms) + 1) * 1000,
        sample_rate * unit_ms < 1000 ==> unit_samples_spec(sample_rate, unit_ms) == 1,
{
    let x: nat = sample_rate as nat * unit_ms as nat;
    assert(x / 1000 * 1000 <= x < (x / 1000 + 1) * 1000);
}

} // verus!
