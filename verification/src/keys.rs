//! Keys for real-time keying, the choice of keying mode, and the lifecycle
//! of a key held down.
use vstd::prelude::*;
use crate::text::{ascii_lower, ascii_upper, to_ascii_lower, chars_of, trimmed, trim_bounds, owned};
use crate::table::same_chars;

verus! {

/// A key that keys Morse signals.
#[derive(Debug, Clone, Copy, PartialEq, Eq, Structural)]
pub enum RealtimeKey {
    Char(char),
    Space,
    Enter,
    Tab,
}

/// A key as the terminal reports it.
#[derive(Debug, Clone, Copy, PartialEq, Eq, Structural)]
pub enum KeyInput {
    Char(char),
    Enter,
    Tab,
    Esc,
    Other,
}

pub open spec fn key_error() -> Seq<char> {
    "enter one character, or use space, enter, or tab"@
}

/// The key that a name stands for, after trimming: `space`, `enter` or
/// `return`, `tab` in any case, or else a single character.
pub open spec fn realtime_key_spec(s: Seq<char>) -> Result<RealtimeKey, Seq<char>> {
    let t = trimmed(s);
    let l = t.map_values(|c: char| ascii_lower(c));
    if l == "space"@ {
        Ok(RealtimeKey::Space)
    } else if l == "enter"@ || l == "return"@ {
        Ok(RealtimeKey::Enter)
    } else if l == "tab"@ {
        Ok(RealtimeKey::Tab)
    } else if t.len() == 1 {
        Ok(RealtimeKey::Char(t[0]))
    } else {
        Err(key_error())
    }
}

fn is_name(lower: &Vec<char>, name: &str) -> (r: bool)
    ensures
        r == (lower@ == name@),
{
    let v = chars_of(name);
    same_chars(lower, &v)
}

/// The trimmed characters of `s`.
fn trimmed_chars(s: &str) -> (r: Vec<char>)
    ensures
        r@ == trimmed(s@),
{
    let characters = chars_of(s);
    let (start, end) = trim_bounds(&characters);
    let mut out: Vec<char> = Vec::new();
    let mut i = start;
    while i < end
        invariant
            start <= i <= end <= characters@.len(),
            out@ == characters@.subrange(start as int, i as int),
        decreases end - i,
    {
        out.push(characters[i]);
        assert(characters@.subrange(start as int, i + 1) == characters@.subrange(start as int, i as int).push(characters@[i as int]));
        i += 1;
    }
    out
}

/// Whether the terminal key `code` is the key `key`; letters match in either case.
pub open spec fn key_matches(key: RealtimeKey, code: KeyInput) -> bool {
    match (key, code) {
        (RealtimeKey::Space, KeyInput::Char(c)) => c == ' ',
        (RealtimeKey::Enter, KeyInput::Enter) => true,
        (RealtimeKey::Tab, KeyInput::Tab) => true,
        (RealtimeKey::Char(e), KeyInput::Char(a)) => ascii_lower(e) == ascii_lower(a),
        _ => false,
    }
}

/// The terminal key that a real-time key names: the character itself, the
/// space bar as the character `' '`, Enter, or Tab.
pub open spec fn named_input(key: RealtimeKey) -> KeyInput {
    match key {
        RealtimeKey::Char(c) => KeyInput::Char(c),
        RealtimeKey::Space => KeyInput::Char(' '),
        RealtimeKey::Enter => KeyInput::Enter,
        RealtimeKey::Tab => KeyInput::Tab,
    }
}

/// Every real-time key matches the terminal key it names, a character key
/// matches its letter typed in either case, and no key matches Escape.
pub proof fn law_key_matches_its_input(key: RealtimeKey, c: char)
    ensures
        key_matches(key, named_input(key)),
        key_matches(RealtimeKey::Tab, KeyInput::Tab),
        key_matches(RealtimeKey::Enter, KeyInput::Enter),
        key_matches(RealtimeKey::Space, KeyInput::Char(' ')),
        key_matches(RealtimeKey::Char(c), KeyInput::Char(ascii_upper(c))),
        key_matches(RealtimeKey::Char(c), KeyInput::Char(ascii_lower(c))),
        key_matches(RealtimeKey::Char(ascii_upper(c)), KeyInput::Char(c)),
        !key_matches(key, KeyInput::Esc),
{
}

impl RealtimeKey {
    /// Reads a key name.
    pub fn parse(value: &str) -> (r: Result<Self, String>)
        ensures
            match realtime_key_spec(value@) {
                Ok(k) => r == Ok::<RealtimeKey, String>(k),
                Err(e) => r matches Err(m) && m@ == e,
            },
    {
        let t = trimmed_chars(value);
        let mut lower: Vec<char> = Vec::new();
        for i in 0..t.len()
            invariant
                lower@ == t@.take(i as int).map_values(|c: char| ascii_lower(c)),
        {
            lower.push(to_ascii_lower(t[i]));
            assert(lower@ =~= t@.take(i + 1).map_values(|c: char| ascii_lower(c)));
        }
        assert(t@.take(t.len() as int) == t@);
        if is_name(&lower, "space") {
            Ok(RealtimeKey::Space)
        } else if is_name(&lower, "enter") || is_name(&lower, "return") {
            Ok(RealtimeKey::Enter)
        } else if is_name(&lower, "tab") {
            Ok(RealtimeKey::Tab)
        } else if t.len() == 1 {
            Ok(RealtimeKey::Char(t[0]))
        } else {
            Err(owned("enter one character, or use space, enter, or tab"))
        }
    }

    /// Whether the terminal key `code` is this key; letters match in either case.
    pub fn matches(self, code: KeyInput) -> (r: bool)
        ensures
            r == key_matches(self, code),
    {
        match (self, code) {
            (RealtimeKey::Space, KeyInput::Char(c)) => c == ' ',
            (RealtimeKey::Enter, KeyInput::Enter) => true,
            (RealtimeKey::Tab, KeyInput::Tab) => true,
            (RealtimeKey::Char(expected), KeyInput::Char(actual)) => to_ascii_lower(expected)
                == to_ascii_lower(actual),
            _ => false,
        }
    }

    /// The key's name as shown to the user: the character, or `space`,
    /// `enter` or `tab`.
    pub fn label(self) -> (r: String)
        ensures
            r@ == match self {
                RealtimeKey::Char(c) => seq![c],
                RealtimeKey::Space => "space"@,
                RealtimeKey::Enter => "enter"@,
                RealtimeKey::Tab => "tab"@,
            },
    {
        match self {
            RealtimeKey::Char(c) => {
                let mut s = String::new();
                s.push(c);
                assert(s@ =~= seq![c]);
                s
            },
            RealtimeKey::Space => owned("space"),
            RealtimeKey::Enter => owned("enter"),
            RealtimeKey::Tab => owned("tab"),
        }
    }
}

pub open spec fn escape_reserved_error() -> Seq<char> {
    "Escape is reserved for exiting real-time mode"@
}

/// The key chosen at a prompt: a key name, but not Escape, which ends a session.
pub fn select_realtime_key(line: &str) -> (r: Result<RealtimeKey, String>)
    ensures
        match realtime_key_spec(line@) {
            Ok(k) => if k == RealtimeKey::Char('\u{1b}') {
                r matches Err(m) && m@ == escape_reserved_error()
            } else {
                r == Ok::<RealtimeKey, String>(k)
            },
            Err(e) => r matches Err(m) && m@ == e,
        },
{
    let key = RealtimeKey::parse(line)?;
    if key == RealtimeKey::Char('\u{1b}') {
        Err(owned("Escape is reserved for exiting real-time mode"))
    } else {
        Ok(key)
    }
}

/// Whether a key ends a real-time session: Escape, or Ctrl-C.
pub fn is_exit_key(code: KeyInput, control: bool) -> (r: bool)
    ensures
        r == (code == KeyInput::Esc || (code == KeyInput::Char('c') && control)),
{
    code == KeyInput::Esc || (code == KeyInput::Char('c') && control)
}

/// How signals are keyed: one key held short or long, or one key each.
#[derive(Debug, Clone, Copy, PartialEq, Eq, Structural)]
pub enum RealtimeMode {
    Single { key: RealtimeKey },
    Double { dot: RealtimeKey, dash: RealtimeKey },
}

/// The answer to the mode prompt.
#[derive(Debug, Clone, Copy, PartialEq, Eq, Structural)]
pub enum ModeChoice {
    Single,
    Double,
}

pub open spec fn mode_error() -> Seq<char> {
    "choose 1 (single key) or 2 (double key)"@
}

/// The mode chosen at the prompt: `1` or `single`, `2` or `double`, around
/// which whitespace is ignored.
pub open spec fn mode_choice_spec(s: Seq<char>) -> Result<ModeChoice, Seq<char>> {
    let t = trimmed(s);
    if t == "1"@ || t == "single"@ {
        Ok(ModeChoice::Single)
    } else if t == "2"@ || t == "double"@ {
        Ok(ModeChoice::Double)
    } else {
        Err(mode_error())
    }
}

/// The mode prompt reads `1` and `single` as single-key mode and `2` and
/// `double` as double-key mode, whatever whitespace surrounds them; every
/// other answer is refused.
pub proof fn law_mode_names(s: Seq<char>)
    ensures
        (trimmed(s) == "1"@ || trimmed(s) == "single"@) <==> mode_choice_spec(s) == Ok::<ModeChoice, Seq<char>>(ModeChoice::Single),
        (trimmed(s) == "2"@ || trimmed(s) == "double"@) <==> mode_choice_spec(s) == Ok::<ModeChoice, Seq<char>>(ModeChoice::Double),
        !(trimmed(s) == "1"@ || trimmed(s) == "single"@ || trimmed(s) == "2"@ || trimmed(s) == "double"@) <==> mode_choice_spec(s) == Err::<ModeChoice, Seq<char>>(mode_error()),
{
    reveal_strlit("1");
    reveal_strlit("2");
    reveal_strlit("single");
    reveal_strlit("double");
    assert("1"@[0] != "2"@[0]);
    assert("1"@.len() != "double"@.len());
    assert("single"@.len() != "2"@.len());
    assert("single"@[0] != "double"@[0]);
}

/// Reads the answer to the mode prompt.
pub fn mode_choice(line: &str) -> (r: Result<ModeChoice, String>)
    ensures
        match mode_choice_spec(line@) {
            Ok(m) => r == Ok::<ModeChoice, String>(m),
            Err(e) => r matches Err(m) && m@ == e,
        },
{
    let t = trimmed_chars(line);
    if is_name(&t, "1") || is_name(&t, "single") {
        Ok(ModeChoice::Single)
    } else if is_name(&t, "2") || is_name(&t, "double") {
        Ok(ModeChoice::Double)
    } else {
        Err(owned("choose 1 (single key) or 2 (double key)"))
    }
}

pub open spec fn same_keys_error() -> Seq<char> {
    "dot and dash must use different keys"@
}

/// Double-key mode with the given keys, which must differ.
pub fn double_mode(dot: RealtimeKey, dash: RealtimeKey) -> (r: Result<RealtimeMode, String>)
    ensures
        dot == dash ==> (r matches Err(m) && m@ == same_keys_error()),
        dot != dash ==> r == Ok::<RealtimeMode, String>(RealtimeMode::Double { dot, dash }),
{
    if dot == dash {
        Err(owned("dot and dash must use different keys"))
    } else {
        Ok(RealtimeMode::Double { dot, dash })
    }
}

/// What happened to a key.
#[derive(Debug, Clone, Copy, PartialEq, Eq, Structural)]
pub enum KeyPhase {
    Press,
    Repeat,
    Release,
}

/// What the keyboard debugger reports of a key event.
#[derive(Debug, Clone, Copy, PartialEq, Eq, Structural)]
pub enum LifecycleNote {
    /// A first press: the hold is being tracked.
    Tracking,
    /// A press of a key already held.
    DuplicatePress,
    /// A repeat while held, after `held_nanos`.
    Held { held_nanos: u64 },
    /// A repeat of a key not known to be held.
    RepeatWithoutPress,
    /// A release after `held_nanos`; a hold longer than the threshold is a dash.
    Released { held_nanos: u64, dah: bool },
    /// A release of a key not known to be held.
    ReleaseWithoutPress,
}

/// The note for a key event, and when the key is now known to have been
/// pressed: a first press starts tracking at `now`, a release stops it.
/// Times are nanoseconds from one starting point; a press time after `now`
/// counts as no time held.
pub open spec fn lifecycle_spec(pressed_at: Option<u64>, phase: KeyPhase, now: u64, threshold_nanos: u64) -> (LifecycleNote, Option<u64>) {
    match phase {
        KeyPhase::Press => match pressed_at {
            None => (LifecycleNote::Tracking, Some(now)),
            Some(p) => (LifecycleNote::DuplicatePress, Some(p)),
        },
        KeyPhase::Repeat => match pressed_at {
            None => (LifecycleNote::RepeatWithoutPress, None),
            Some(p) => (LifecycleNote::Held { held_nanos: if now >= p { (now - p) as u64 } else { 0 } }, Some(p)),
        },
        KeyPhase::Release => match pressed_at {
            None => (LifecycleNote::ReleaseWithoutPress, None),
            Some(p) => {
                let held: u64 = if now >= p { (now - p) as u64 } else { 0 };
                (LifecycleNote::Released { held_nanos: held, dah: held > threshold_nanos }, None)
            },
        },
    }
}

/// Follows one key through a press, repeat or release event.
pub fn describe_key_lifecycle(pressed_at: Option<u64>, phase: KeyPhase, now: u64, threshold_nanos: u64) -> (r: (LifecycleNote, Option<u64>))
    ensures
        r == lifecycle_spec(pressed_at, phase, now, threshold_nanos),
{
    match phase {
        KeyPhase::Press => match pressed_at {
            None => (LifecycleNote::Tracking, Some(now)),
            Some(p) => (LifecycleNote::DuplicatePress, Some(p)),
        },
        KeyPhase::Repeat => match pressed_at {
            None => (LifecycleNote::RepeatWithoutPress, None),
            Some(p) => {
                let held: u64 = if now >= p { now - p } else { 0 };
                (LifecycleNote::Held { held_nanos: held }, Some(p))
            },
        },
        KeyPhase::Release => match pressed_at {
            None => (LifecycleNote::ReleaseWithoutPress, None),
            Some(p) => {
                let held: u64 = if now >= p { now - p } else { 0 };
                (LifecycleNote::Released { held_nanos: held, dah: held > threshold_nanos }, None)
            },
        },
    }
}

} // verus!
