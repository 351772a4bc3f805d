//! The Morse alphabet: the codes of the English letters and the digits.
use vstd::prelude::*;

verus! {

/// Letters and digits that have a Morse code: `A`..=`Z` and `0`..=`9`.
pub open spec fn is_table_letter(c: char) -> bool {
    ('A' <= c && c <= 'Z') || ('0' <= c && c <= '9')
}

/// The Morse code of a table letter, written with `.` and `-`.
pub open spec fn code_of(c: char) -> Seq<char> {
    match c {
        'A' => seq!['.', '-'],
        'B' => seq!['-', '.', '.', '.'],
        'C' => seq!['-', '.', '-', '.'],
        'D' => seq!['-', '.', '.'],
        'E' => seq!['.'],
        'F' => seq!['.', '.', '-', '.'],
        'G' => seq!['-', '-', '.'],
        'H' => seq!['.', '.', '.', '.'],
        'I' => seq!['.', '.'],
        'J' => seq!['.', '-', '-', '-'],
        'K' => seq!['-', '.', '-'],
        'L' => seq!['.', '-', '.', '.'],
        'M' => seq!['-', '-'],
        'N' => seq!['-', '.'],
        'O' => seq!['-', '-', '-'],
        'P' => seq!['.', '-', '-', '.'],
        'Q' => seq!['-', '-', '.', '-'],
        'R' => seq!['.', '-', '.'],
        'S' => seq!['.', '.', '.'],
        'T' => seq!['-'],
        'U' => seq!['.', '.', '-'],
        'V' => seq!['.', '.', '.', '-'],
        'W' => seq!['.', '-', '-'],
        'X' => seq!['-', '.', '.', '-'],
        'Y' => seq!['-', '.', '-', '-'],
        'Z' => seq!['-', '-', '.', '.'],
        '0' => seq!['-', '-', '-', '-', '-'],
        '1' => seq!['.', '-', '-', '-', '-'],
        '2' => seq!['.', '.', '-', '-', '-'],
        '3' => seq!['.', '.', '.', '-', '-'],
        '4' => seq!['.', '.', '.', '.', '-'],
        '5' => seq!['.', '.', '.', '.', '.'],
        '6' => seq!['-', '.', '.', '.', '.'],
        '7' => seq!['-', '-', '.', '.', '.'],
        '8' => seq!['-', '-', '-', '.', '.'],
        '9' => seq!['-', '-', '-', '-', '.'],
        _ => Seq::empty(),
    }
}

/// Whether `code` is the code of some table letter.
pub open spec fn is_known_code(code: Seq<char>) -> bool {
    exists|c: char| is_table_letter(c) && code_of(c) == code
}

/// The table letter whose code is `code`, if there is one.
pub open spec fn letter_of(code: Seq<char>) -> Option<char> {
    if is_known_code(code) {
        Some(choose|c: char| is_table_letter(c) && code_of(c) == code)
    } else {
        None
    }
}

/// The code of a table letter as a number: its length times 100 plus the
/// dashes read as binary digits, least significant first.
spec fn code_key(code: Seq<char>) -> int {
    code.len() * 100
        + (if code.len() > 0 && code[0] == '-' { 1int } else { 0 })
        + (if code.len() > 1 && code[1] == '-' { 2int } else { 0 })
        + (if code.len() > 2 && code[2] == '-' { 4int } else { 0 })
        + (if code.len() > 3 && code[3] == '-' { 8int } else { 0 })
        + (if code.len() > 4 && code[4] == '-' { 16int } else { 0 })
}

spec fn letter_of_key(key: int) -> char {
    if key == 202 {
        'A'
    } else if key == 401 {
        'B'
    } else if key == 405 {
        'C'
    } else if key == 301 {
        'D'
    } else if key == 100 {
        'E'
    } else if key == 404 {
        'F'
    } else if key == 303 {
        'G'
    } else if key == 400 {
        'H'
    } else if key == 200 {
        'I'
    } else if key == 414 {
        'J'
    } else if key == 305 {
        'K'
    } else if key == 402 {
        'L'
    } else if key == 203 {
        'M'
    } else if key == 201 {
        'N'
    } else if key == 307 {
        'O'
    } else if key == 406 {
        'P'
    } else if key == 411 {
        'Q'
    } else if key == 302 {
        'R'
    } else if key == 300 {
        'S'
    } else if key == 101 {
        'T'
    } else if key == 304 {
        'U'
    } else if key == 408 {
        'V'
    } else if key == 306 {
        'W'
    } else if key == 409 {
        'X'
    } else if key == 413 {
        'Y'
    } else if key == 403 {
        'Z'
    } else if key == 531 {
        '0'
    } else if key == 530 {
        '1'
    } else if key == 528 {
        '2'
    } else if key == 524 {
        '3'
    } else if key == 516 {
        '4'
    } else if key == 500 {
        '5'
    } else if key == 501 {
        '6'
    } else if key == 503 {
        '7'
    } else if key == 507 {
        '8'
    } else if key == 515 {
        '9'
    } else {
        ' '
    }
}

proof fn lemma_key_identifies_letter(c: char)
    requires
        is_table_letter(c),
    ensures
        letter_of_key(code_key(code_of(c))) == c,
{
}

/// No two table letters share a code.
pub proof fn lemma_codes_distinct(c1: char, c2: char)
    requires
        is_table_letter(c1),
        is_table_letter(c2),
        code_of(c1) == code_of(c2),
    ensures
        c1 == c2,
{
    lemma_key_identifies_letter(c1);
    lemma_key_identifies_letter(c2);
}

/// Decoding the code of a table letter gives the letter back.
pub proof fn lemma_letter_of_code(c: char)
    requires
        is_table_letter(c),
    ensures
        letter_of(code_of(c)) == Some(c),
{
    assert(is_known_code(code_of(c)));
    let d = choose|d: char| is_table_letter(d) && code_of(d) == code_of(c);
    lemma_codes_distinct(c, d);
}

} // verus!

verus! {

/// The `i`-th table letter, in the order `A`..=`Z`, `0`..=`9`.
pub open spec fn table_letter(i: int) -> char {
    if i < 26 {
        ('A' as int + i) as char
    } else {
        ('0' as int + (i - 26)) as char
    }
}

/// The position of a table letter in the table.
pub open spec fn table_index(c: char) -> int {
    if c <= 'Z' && 'A' <= c {
        c as int - 'A' as int
    } else {
        c as int - '0' as int + 26
    }
}

/// The table lists every table letter once.
pub proof fn lemma_table_covers(c: char)
    requires
        is_table_letter(c),
    ensures
        0 <= table_index(c) < 36,
        table_letter(table_index(c)) == c,
{
}

pub proof fn lemma_table_letter(i: int)
    requires
        0 <= i < 36,
    ensures
        is_table_letter(table_letter(i)),
{
}

fn table_letter_at(i: usize) -> (c: char)
    requires
        i < 36,
    ensures
        c == table_letter(i as int),
        is_table_letter(c),
{
    proof {
        lemma_table_letter(i as int);
    }
    if i < 26 {
        (65u8 + i as u8) as char
    } else {
        (48u8 + (i - 26) as u8) as char
    }
}

/// The Morse code of `c` when `c` is a table letter.
pub fn code_for(c: char) -> (r: Option<Vec<char>>)
    ensures
        r matches Some(v) ==> is_table_letter(c) && v@ == code_of(c),
        r is None ==> !is_table_letter(c),
{
    match c {
        'A' => Some(vec!['.', '-']),
        'B' => Some(vec!['-', '.', '.', '.']),
        'C' => Some(vec!['-', '.', '-', '.']),
        'D' => Some(vec!['-', '.', '.']),
        'E' => Some(vec!['.']),
        'F' => Some(vec!['.', '.', '-', '.']),
        'G' => Some(vec!['-', '-', '.']),
        'H' => Some(vec!['.', '.', '.', '.']),
        'I' => Some(vec!['.', '.']),
        'J' => Some(vec!['.', '-', '-', '-']),
        'K' => Some(vec!['-', '.', '-']),
        'L' => Some(vec!['.', '-', '.', '.']),
        'M' => Some(vec!['-', '-']),
        'N' => Some(vec!['-', '.']),
        'O' => Some(vec!['-', '-', '-']),
        'P' => Some(vec!['.', '-', '-', '.']),
        'Q' => Some(vec!['-', '-', '.', '-']),
        'R' => Some(vec!['.', '-', '.']),
        'S' => Some(vec!['.', '.', '.']),
        'T' => Some(vec!['-']),
        'U' => Some(vec!['.', '.', '-']),
        'V' => Some(vec!['.', '.', '.', '-']),
        'W' => Some(vec!['.', '-', '-']),
        'X' => Some(vec!['-', '.', '.', '-']),
        'Y' => Some(vec!['-', '.', '-', '-']),
        'Z' => Some(vec!['-', '-', '.', '.']),
        '0' => Some(vec!['-', '-', '-', '-', '-']),
        '1' => Some(vec!['.', '-', '-', '-', '-']),
        '2' => Some(vec!['.', '.', '-', '-', '-']),
        '3' => Some(vec!['.', '.', '.', '-', '-']),
        '4' => Some(vec!['.', '.', '.', '.', '-']),
        '5' => Some(vec!['.', '.', '.', '.', '.']),
        '6' => Some(vec!['-', '.', '.', '.', '.']),
        '7' => Some(vec!['-', '-', '.', '.', '.']),
        '8' => Some(vec!['-', '-', '-', '.', '.']),
        '9' => Some(vec!['-', '-', '-', '-', '.']),
        _ => None,
    }
}

/// Whether two character sequences are equal.
pub fn same_chars(a: &Vec<char>, b: &Vec<char>) -> (r: bool)
    ensures
        r == (a@ == b@),
{
    if a.len() != b.len() {
        return false;
    }
    let mut i: usize = 0;
    while i < a.len()
        invariant
            a.len() == b.len(),
            i <= a.len(),
            forall|j: int| 0 <= j < i ==> a@[j] == b@[j],
        decreases a.len() - i,
    {
        if a[i] != b[i] {
            return false;
        }
        i = i + 1;
    }
    assert(a@ =~= b@);
    true
}

/// The table letter whose Morse code is `code`, found by searching the table.
pub fn letter_for(code: &Vec<char>) -> (r: Option<char>)
    ensures
        r == letter_of(code@),
{
    let mut i: usize = 0;
    while i < 36
        invariant
            i <= 36,
            forall|j: int| 0 <= j < i ==> code_of(table_letter(j)) != code@,
        decreases 36 - i,
    {
        let c = table_letter_at(i);
        let entry = code_for(c);
        match entry {
            Some(v) => {
                if same_chars(&v, code) {
                    proof {
                        assert(is_known_code(code@));
                        let d = choose|d: char| is_table_letter(d) && code_of(d) == code@;
                        lemma_codes_distinct(c, d);
                    }
                    return Some(c);
                }
            },
            None => {},
        }
        i = i + 1;
    }
    proof {
        assert forall|c: char| is_table_letter(c) implies code_of(c) != code@ by {
            lemma_table_covers(c);
        }
    }
    None
}

} // verus!
