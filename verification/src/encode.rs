//! Encoding English letters and digits as Morse.
use vstd::prelude::*;
use crate::table::{code_of, code_for, is_table_letter};
use crate::text::{
    is_whitespace, whitespace, is_ascii_alnum, ascii_alnum, ascii_upper, to_ascii_upper, join,
    lemma_join_push, chars_of, string_of, message,
};

verus! {

/// The words of `s` read so far and the word being read, splitting at whitespace.
pub open spec fn split_state(s: Seq<char>) -> (Seq<Seq<char>>, Seq<char>)
    decreases s.len(),
{
    if s.len() == 0 {
        (Seq::empty(), Seq::empty())
    } else {
        let (done, cur) = split_state(s.drop_last());
        let c = s.last();
        if is_whitespace(c) {
            if cur.len() > 0 {
                (done.push(cur), Seq::empty())
            } else {
                (done, Seq::empty())
            }
        } else {
            (done, cur.push(c))
        }
    }
}

/// The words of `s`: its maximal runs of non-whitespace characters, as
/// `str::split_whitespace` gives them.
pub open spec fn words(s: Seq<char>) -> Seq<Seq<char>> {
    let (done, cur) = split_state(s);
    if cur.len() > 0 {
        done.push(cur)
    } else {
        done
    }
}

/// A character that the Morse table cannot encode.
pub open spec fn is_unsupported(c: char) -> bool {
    !is_whitespace(c) && !is_ascii_alnum(c)
}

/// The first unsupported character of `s` from position `i` on.
pub open spec fn first_unsupported_from(s: Seq<char>, i: int) -> Option<char>
    decreases s.len() - i,
{
    if i < 0 || i >= s.len() {
        None
    } else if is_unsupported(s[i]) {
        Some(s[i])
    } else {
        first_unsupported_from(s, i + 1)
    }
}

pub open spec fn first_unsupported(s: Seq<char>) -> Option<char> {
    first_unsupported_from(s, 0)
}

pub open spec fn unsupported_error(c: char) -> Seq<char> {
    "unsupported character '"@ + seq![c] + "'"@
}

/// The Morse code of one letter or digit of the input, in either case.
pub open spec fn letter_code(c: char) -> Seq<char> {
    code_of(ascii_upper(c))
}

/// A word in Morse: the codes of its letters, one space apart.
pub open spec fn encode_word(w: Seq<char>) -> Seq<char> {
    join(letter_codes(w), seq![' '])
}

/// A text in Morse: its words, two spaces apart.
pub open spec fn encode_spec(s: Seq<char>) -> Seq<char> {
    join(word_codes(words(s)), seq![' ', ' '])
}

proof fn lemma_first_unsupported_skip(s: Seq<char>, i: int)
    requires
        0 <= i <= s.len(),
        forall|j: int| 0 <= j < i ==> !is_unsupported(#[trigger] s[j]),
    ensures
        first_unsupported_from(s, 0) == first_unsupported_from(s, i),
    decreases i,
{
    if i > 0 {
        lemma_first_unsupported_skip(s, i - 1);
    }
}

/// When `s` holds only whitespace and ASCII letters and digits, its words are
/// nonempty and made of ASCII letters and digits.
pub proof fn lemma_split_chars(s: Seq<char>)
    requires
        forall|j: int| 0 <= j < s.len() ==> !is_unsupported(#[trigger] s[j]),
    ensures
        forall|k: int, j: int|
            0 <= k < split_state(s).0.len() && 0 <= j < split_state(s).0[k].len()
                ==> is_ascii_alnum(#[trigger] split_state(s).0[k][j]),
        forall|j: int|
            0 <= j < split_state(s).1.len() ==> is_ascii_alnum(#[trigger] split_state(s).1[j]),
        forall|k: int| 0 <= k < split_state(s).0.len() ==> #[trigger] split_state(s).0[k].len() > 0,
    decreases s.len(),
{
    if s.len() > 0 {
        let p = s.drop_last();
        assert forall|j: int| 0 <= j < p.len() implies !is_unsupported(#[trigger] p[j]) by {
            assert(p[j] == s[j]);
        }
        lemma_split_chars(p);
        let (done, cur) = split_state(p);
        let c = s.last();
        assert(!is_unsupported(s[s.len() - 1]));
        if is_whitespace(c) {
            if cur.len() > 0 {
                let d2 = done.push(cur);
                assert forall|k: int, j: int| 0 <= k < d2.len() && 0 <= j < d2[k].len()
                    implies is_ascii_alnum(#[trigger] d2[k][j]) by {
                    if k < done.len() {
                        assert(d2[k] == done[k]);
                    } else {
                        assert(d2[k] == cur);
                    }
                }
            }
        } else {
            let c2 = cur.push(c);
            assert forall|j: int| 0 <= j < c2.len() implies is_ascii_alnum(#[trigger] c2[j]) by {
                if j < cur.len() {
                    assert(c2[j] == cur[j]);
                }
            }
        }
    }
}

/// The Morse codes of the letters of `w`.
pub open spec fn letter_codes(w: Seq<char>) -> Seq<Seq<char>> {
    w.map_values(|c: char| letter_code(c))
}

/// The Morse codes of the words of a text.
pub open spec fn word_codes(ws: Seq<Seq<char>>) -> Seq<Seq<char>> {
    ws.map_values(|w: Seq<char>| encode_word(w))
}

pub proof fn lemma_letter_codes_push(w: Seq<char>, c: char)
    ensures
        letter_codes(w.push(c)) == letter_codes(w).push(letter_code(c)),
{
    assert(letter_codes(w.push(c)) =~= letter_codes(w).push(letter_code(c)));
}

pub proof fn lemma_word_codes_push(ws: Seq<Seq<char>>, w: Seq<char>)
    ensures
        word_codes(ws.push(w)) == word_codes(ws).push(encode_word(w)),
{
    assert(word_codes(ws.push(w)) =~= word_codes(ws).push(encode_word(w)));
}

/// Appends the Morse code of the word `w` to `out`.
fn append_encoded_word(out: &mut Vec<char>, w: &Vec<char>)
    requires
        forall|j: int| 0 <= j < w@.len() ==> is_ascii_alnum(#[trigger] w@[j]),
    ensures
        final(out)@ == old(out)@ + encode_word(w@),
{
    let ghost start = out@;
    for j in 0..w.len()
        invariant
            forall|k: int| 0 <= k < w@.len() ==> is_ascii_alnum(#[trigger] w@[k]),
            out@ == start + join(letter_codes(w@.take(j as int)), seq![' ']),
    {
        proof {
            assert(w@.take(j + 1) == w@.take(j as int).push(w@[j as int]));
            lemma_letter_codes_push(w@.take(j as int), w@[j as int]);
            lemma_join_push(letter_codes(w@.take(j as int)), seq![' '], letter_code(w@[j as int]));
        }
        if j > 0 {
            out.push(' ');
        }
        let upper = to_ascii_upper(w[j]);
        let code = code_for(upper);
        match code {
            Some(code) => {
                let ghost mid = out@;
                for k in 0..code.len()
                    invariant
                        out@ == mid + code@.take(k as int),
                {
                    out.push(code[k]);
                    assert(code@.take(k + 1) == code@.take(k as int).push(code@[k as int]));
                }
                assert(code@.take(code.len() as int) == code@);
            },
            None => {
                // Unreachable: every ASCII letter and digit has a code.
                assert(is_table_letter(upper));
            },
        }
        assert(out@ =~= start + join(letter_codes(w@.take(j + 1)), seq![' ']));
    }
    assert(w@.take(w.len() as int) == w@);
}

/// Encodes English letters and digits as Morse: one space between the codes
/// of a word's letters and two spaces between words. Letters may be in
/// either case; whitespace of any kind separates words.
pub fn encode_text(input: &str) -> (r: Result<String, String>)
    ensures
        match first_unsupported(input@) {
            Some(c) => r matches Err(m) && m@ == unsupported_error(c),
            None => r matches Ok(t) && t@ == encode_spec(input@),
        },
{
    let characters = chars_of(input);
    let ghost s = characters@;
    let mut i: usize = 0;
    while i < characters.len()
        invariant
            s == characters@,
            s == input@,
            i <= s.len(),
            forall|j: int| 0 <= j < i ==> !is_unsupported(#[trigger] s[j]),
        decreases characters.len() - i,
    {
        let c = characters[i];
        if !whitespace(c) && !ascii_alnum(c) {
            proof {
                lemma_first_unsupported_skip(s, i as int);
                assert(first_unsupported_from(s, i as int) == Some(c));
            }
            let detail = vec![c];
            return Err(message("unsupported character '", &detail, "'"));
        }
        i += 1;
    }
    proof {
        lemma_first_unsupported_skip(s, s.len() as int);
    }
    let mut out: Vec<char> = Vec::new();
    let mut current: Vec<char> = Vec::new();
    let mut any_word = false;
    let mut index: usize = 0;
    assert(s.take(0) == Seq::<char>::empty());
    while index < characters.len()
        invariant
            s == characters@,
            index <= s.len(),
            any_word == (split_state(s.take(index as int)).0.len() > 0),
            forall|j: int| 0 <= j < s.len() ==> !is_unsupported(#[trigger] s[j]),
            split_state(s.take(index as int)).1 == current@,
            out@ == join(word_codes(split_state(s.take(index as int)).0), seq![' ', ' ']),
        decreases characters.len() - index,
    {
        let ghost prefix = s.take(index as int);
        proof {
            assert(s.take(index + 1).drop_last() == prefix);
            assert forall|j: int| 0 <= j < prefix.len() implies !is_unsupported(#[trigger] prefix[j]) by {
                assert(prefix[j] == s[j]);
            }
            lemma_split_chars(prefix);
        }
        let c = characters[index];
        if whitespace(c) {
            if current.len() > 0 {
                let ghost done = split_state(prefix).0;
                proof {
                    lemma_word_codes_push(done, current@);
                    lemma_join_push(word_codes(done), seq![' ', ' '], encode_word(current@));
                }
                let ghost word = current@;
                if any_word {
                    out.push(' ');
                    out.push(' ');
                }
                append_encoded_word(&mut out, &current);
                current = Vec::new();
                any_word = true;
                assert(out@ =~= join(word_codes(done.push(word)), seq![' ', ' ']));
            }
        } else {
            current.push(c);
        }
        index += 1;
    }
    assert(s.take(s.len() as int) == s);
    if current.len() > 0 {
        let ghost done = split_state(s).0;
        proof {
            lemma_split_chars(s);
            lemma_word_codes_push(done, current@);
            lemma_join_push(word_codes(done), seq![' ', ' '], encode_word(current@));
        }
        if any_word {
            out.push(' ');
            out.push(' ');
        }
        append_encoded_word(&mut out, &current);
    }
    Ok(string_of(&out))
}

} // verus!
