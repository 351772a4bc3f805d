//! Real-time keying: timing boundaries, keys and modes.
use vstd::prelude::*;
use crate::stream::{MorseStreamDecoder, StreamView, finish_letter_spec, finish_word_spec};
use crate::keys::{RealtimeMode, RealtimeKey, KeyInput, KeyPhase, key_matches, named_input, law_key_matches_its_input};

verus! {

/// A hold longer than `sqrt(3)` units is a dash: the geometric mean of a
/// one-unit dot and a three-unit dash.
pub const DIT_DAH_BOUNDARY_SQUARED_UNITS: u8 = 3;

/// A pause of `sqrt(21)` units or more ends a word: the geometric mean of a
/// three-unit letter gap and a seven-unit word gap.
pub const LETTER_WORD_BOUNDARY_SQUARED_UNITS: u8 = 21;

/// Nanoseconds in a unit of `unit_ms` milliseconds.
pub open spec fn unit_nanos(unit_ms: u32) -> nat {
    unit_ms as nat * 1_000_000
}

/// `r` is the whole number nearest to `sqrt(n) / 2`: `(2r - 1)^2 <= n < (2r + 1)^2`.
pub open spec fn is_nearest_half_root(r: nat, n: nat) -> bool {
    &&& (r == 0 || (2 * r - 1) * (2 * r - 1) <= n)
    &&& n < (2 * r + 1) * (2 * r + 1)
}

/// `r` nanoseconds is `sqrt(squared_units)` units of `unit_ms` milliseconds,
/// to the nearest nanosecond.
pub open spec fn is_boundary(r: nat, unit_ms: u32, squared_units: u8) -> bool {
    is_nearest_half_root(r, 4 * squared_units as nat * unit_nanos(unit_ms) * unit_nanos(unit_ms))
}

/// `sqrt(squared_units)` units of `unit_ms` milliseconds, in nanoseconds,
/// rounded to the nearest nanosecond.
pub open spec fn boundary_nanos(unit_ms: u32, squared_units: u8) -> nat {
    choose|r: nat| is_boundary(r, unit_ms, squared_units)
}

/// The nearest half root is unique.
pub proof fn lemma_nearest_half_root_unique(r1: nat, r2: nat, n: nat)
    requires
        is_nearest_half_root(r1, n),
        is_nearest_half_root(r2, n),
    ensures
        r1 == r2,
{
    if r1 < r2 {
        assert((2 * r1 + 1) * (2 * r1 + 1) <= (2 * r2 - 1) * (2 * r2 - 1)) by (nonlinear_arith)
            requires
                r1 + 1 <= r2,
        ;
    } else if r2 < r1 {
        assert((2 * r2 + 1) * (2 * r2 + 1) <= (2 * r1 - 1) * (2 * r1 - 1)) by (nonlinear_arith)
            requires
                r2 + 1 <= r1,
        ;
    }
}

proof fn lemma_boundary_is(r: nat, unit_ms: u32, squared_units: u8)
    requires
        is_boundary(r, unit_ms, squared_units),
    ensures
        boundary_nanos(unit_ms, squared_units) == r,
{
    let b = boundary_nanos(unit_ms, squared_units);
    lemma_nearest_half_root_unique(
        r,
        b,
        4 * squared_units as nat * unit_nanos(unit_ms) * unit_nanos(unit_ms),
    );
}

/// The integer square root of `n`.
fn isqrt(n: u128) -> (r: u64)
    requires
        n < 0x100_0000_0000_0000_0000_0000_0000_0000,
    ensures
        r as nat * r as nat <= n,
        n < (r as nat + 1) * (r as nat + 1),
        r < 0x1000_0000_0000_0000,
{
    let mut lo: u128 = 0;
    let mut hi: u128 = 0x1000_0000_0000_0000;
    assert(hi * hi == 0x100_0000_0000_0000_0000_0000_0000_0000) by (nonlinear_arith)
        requires
            hi == 0x1000_0000_0000_0000u128,
    ;
    while hi - lo > 1
        invariant
            lo < hi <= 0x1000_0000_0000_0000,
            lo * lo <= n,
            n < hi * hi,
        decreases hi - lo,
    {
        let mid = lo + (hi - lo) / 2;
        assert(mid * mid <= 0x100_0000_0000_0000_0000_0000_0000_0000) by (nonlinear_arith)
            requires
                mid < 0x1000_0000_0000_0000u128,
        ;
        if mid * mid <= n {
            lo = mid;
        } else {
            hi = mid;
        }
    }
    assert(hi == lo + 1);
    lo as u64
}

/// `sqrt(squared_units)` units of `unit_ms` milliseconds, in nanoseconds,
/// rounded to the nearest nanosecond.
pub fn duration_for_units(unit_ms: u32, squared_units: u8) -> (r: u64)
    ensures
        r == boundary_nanos(unit_ms, squared_units),
{
    let u: u128 = unit_ms as u128 * 1_000_000;
    let k: u128 = squared_units as u128;
    assert(u * u <= 4_294_967_295_000_000 * 4_294_967_295_000_000) by (nonlinear_arith)
        requires
            u <= 4_294_967_295_000_000,
    ;
    let uu: u128 = u * u;
    assert(4 * k * uu <= 1020 * 18_446_744_065_119_617_025_000_000_000_000) by (nonlinear_arith)
        requires
            uu <= 18_446_744_065_119_617_025_000_000_000_000,
            k <= 255,
    ;
    let n: u128 = 4 * k * uu;
    assert(n == 4 * k * u * u) by (nonlinear_arith)
        requires
            n == 4 * k * uu,
            uu == u * u,
    ;
    let s = isqrt(n);
    let r: u64 = (s + 1) / 2;
    assert(is_nearest_half_root(r as nat, n as nat)) by (nonlinear_arith)
        requires
            s as nat * s as nat <= n,
            n < (s as nat + 1) * (s as nat + 1),
            r == (s + 1) / 2,
    ;
    proof {
        lemma_boundary_is(r as nat, unit_ms, squared_units);
    }
    r
}

/// What a pause in keying does: nothing, end the letter, or end the word.
#[derive(Debug, Clone, Copy, PartialEq, Eq, Structural)]
pub enum IdleAction {
    Wait,
    FinishLetter,
    FinishWord,
}

/// The action for a pause: none while the key is held or before any signal;
/// a pause of at least `sqrt(21)` units ends the word, one of at least
/// `sqrt(3)` units ends the letter (`letter_word` and `dit_dah` nanoseconds).
/// Times are in nanoseconds; a signal time after `now` counts as no pause.
pub open spec fn idle_action(
    last_signal_at: Option<u64>,
    now: u64,
    key_is_held: bool,
    dit_dah: nat,
    letter_word: nat,
) -> IdleAction {
    if key_is_held {
        IdleAction::Wait
    } else {
        match last_signal_at {
            None => IdleAction::Wait,
            Some(at) => {
                let elapsed: nat = if now >= at { (now - at) as nat } else { 0 };
                if elapsed >= letter_word {
                    IdleAction::FinishWord
                } else if elapsed >= dit_dah {
                    IdleAction::FinishLetter
                } else {
                    IdleAction::Wait
                }
            },
        }
    }
}

/// The decoder contents and the change flag after an idle action.
pub open spec fn apply_idle(v: StreamView, action: IdleAction) -> (StreamView, bool) {
    match action {
        IdleAction::Wait => (v, false),
        IdleAction::FinishLetter => finish_letter_spec(v),
        IdleAction::FinishWord => finish_word_spec(v),
    }
}

/// Ends the letter or the word when keying has paused long enough, and says
/// whether the decoded text changed. `last_signal_at` and `now` are
/// nanoseconds from one starting point.
pub fn finalize_realtime_idle(
    decoder: &mut MorseStreamDecoder,
    last_signal_at: Option<u64>,
    now: u64,
    unit_ms: u32,
    key_is_held: bool,
) -> (changed: bool)
    ensures
        (final(decoder)@, changed) == apply_idle(
            old(decoder)@,
            idle_action(
                last_signal_at,
                now,
                key_is_held,
                boundary_nanos(unit_ms, DIT_DAH_BOUNDARY_SQUARED_UNITS),
                boundary_nanos(unit_ms, LETTER_WORD_BOUNDARY_SQUARED_UNITS),
            ),
        ),
{
    let dit_dah = duration_for_units(unit_ms, DIT_DAH_BOUNDARY_SQUARED_UNITS);
    let letter_word = duration_for_units(unit_ms, LETTER_WORD_BOUNDARY_SQUARED_UNITS);
    if key_is_held {
        return false;
    }
    let last = match last_signal_at {
        Some(at) => at,
        None => {
            return false;
        },
    };
    let elapsed: u64 = if now >= last { now - last } else { 0 };
    if elapsed >= letter_word {
        decoder.finish_word()
    } else if elapsed >= dit_dah {
        decoder.finish_letter()
    } else {
        false
    }
}

/// The signal that a key held for `held_nanos` keys: a hold longer than
/// `sqrt(3)` units is a dash, any other a dot.
pub fn signal_for_hold(held_nanos: u64, unit_ms: u32) -> (signal: char)
    ensures
        signal == if held_nanos > boundary_nanos(unit_ms, DIT_DAH_BOUNDARY_SQUARED_UNITS) {
            '-'
        } else {
            '.'
        },
{
    let boundary = duration_for_units(unit_ms, DIT_DAH_BOUNDARY_SQUARED_UNITS);
    if held_nanos > boundary {
        '-'
    } else {
        '.'
    }
}

/// Records when a key was first pressed: a later press of a key already held
/// (keyboard auto-repeat) keeps the first time.
pub fn record_initial_press<T>(held_since: &mut Option<T>, pressed_at: T)
    ensures
        *final(held_since) == match *old(held_since) {
            Some(t) => Some(t),
            None => Some(pressed_at),
        },
{
    if held_since.is_none() {
        *held_since = Some(pressed_at);
    }
}

proof fn lemma_root_exists(n: nat)
    ensures
        exists|s: nat| #[trigger] (s * s) <= n && n < (s + 1) * (s + 1),
    decreases n,
{
    if n == 0 {
        let z: nat = 0;
        assert(z * z <= n && n < (z + 1) * (z + 1)) by (nonlinear_arith)
            requires
                z == 0,
                n == 0,
        ;
    } else {
        lemma_root_exists((n - 1) as nat);
        let s = choose|s: nat| #[trigger] (s * s) <= (n - 1) as nat && ((n - 1) as nat) < (s + 1) * (s + 1);
        if (s + 1) * (s + 1) <= n {
            let t = s + 1;
            assert(n < (t + 1) * (t + 1)) by (nonlinear_arith)
                requires
                    t == s + 1,
                    n - 1 < t * t,
            ;
            assert(t * t <= n && n < (t + 1) * (t + 1));
        } else {
            assert(s * s <= n && n < (s + 1) * (s + 1));
        }
    }
}

/// Every unit and every number of squared units has its boundary.
pub proof fn lemma_boundary_exists(unit_ms: u32, squared_units: u8)
    ensures
        is_boundary(boundary_nanos(unit_ms, squared_units), unit_ms, squared_units),
{
    let u = unit_nanos(unit_ms);
    let n: nat = 4 * squared_units as nat * u * u;
    lemma_root_exists(n);
    let s = choose|s: nat| #[trigger] (s * s) <= n && n < (s + 1) * (s + 1);
    let r: nat = (s + 1) / 2;
    assert(is_nearest_half_root(r, n)) by (nonlinear_arith)
        requires
            s * s <= n,
            n < (s + 1) * (s + 1),
            r == (s + 1) / 2,
    ;
    assert(is_boundary(r, unit_ms, squared_units));
}

/// The dot-dash boundary lies between one and three units: a one-unit hold
/// keys a dot, a three-unit hold a dash; and a one-unit pause stays within
/// a letter while a three-unit pause ends it.
pub proof fn law_dit_dah_boundary(unit_ms: u32)
    requires
        unit_ms >= 1,
    ensures
        unit_nanos(unit_ms) < boundary_nanos(unit_ms, DIT_DAH_BOUNDARY_SQUARED_UNITS),
        boundary_nanos(unit_ms, DIT_DAH_BOUNDARY_SQUARED_UNITS) < 3 * unit_nanos(unit_ms),
{
    lemma_boundary_exists(unit_ms, DIT_DAH_BOUNDARY_SQUARED_UNITS);
    let u: int = unit_nanos(unit_ms) as int;
    let r: int = boundary_nanos(unit_ms, DIT_DAH_BOUNDARY_SQUARED_UNITS) as int;
    assert(u >= 1);
    assert(u < r) by (nonlinear_arith)
        requires
            u >= 1,
            r >= 0,
            4 * 3 * u * u < (2 * r + 1) * (2 * r + 1),
    ;
    assert(r < 3 * u) by (nonlinear_arith)
        requires
            u >= 1,
            r >= 0,
            r == 0 || (2 * r - 1) * (2 * r - 1) <= 4 * 3 * u * u,
    ;
}

/// The letter-word boundary lies between three and seven units: a
/// three-unit pause ends a letter but not the word, a seven-unit pause ends
/// the word.
pub proof fn law_letter_word_boundary(unit_ms: u32)
    requires
        unit_ms >= 1,
    ensures
        3 * unit_nanos(unit_ms) < boundary_nanos(unit_ms, LETTER_WORD_BOUNDARY_SQUARED_UNITS),
        boundary_nanos(unit_ms, LETTER_WORD_BOUNDARY_SQUARED_UNITS) < 7 * unit_nanos(unit_ms),
{
    lemma_boundary_exists(unit_ms, LETTER_WORD_BOUNDARY_SQUARED_UNITS);
    let u: int = unit_nanos(unit_ms) as int;
    let r: int = boundary_nanos(unit_ms, LETTER_WORD_BOUNDARY_SQUARED_UNITS) as int;
    assert(u >= 1);
    assert(3 * u < r) by (nonlinear_arith)
        requires
            u >= 1,
            r >= 0,
            4 * 21 * u * u < (2 * r + 1) * (2 * r + 1),
    ;
    assert(r < 7 * u) by (nonlinear_arith)
        requires
            u >= 1,
            r >= 0,
            r == 0 || (2 * r - 1) * (2 * r - 1) <= 4 * 21 * u * u,
    ;
}

/// What a key event does while keying: when a key is now known to be held
/// (in nanoseconds), and the signal it keys, if any. In single-key mode a
/// press of the key starts a hold unless one is under way, and a release
/// ends the hold and keys a dot or a dash by its length (a release with no
/// hold under way keys nothing); in double-key mode a press of the dot or the
/// dash key keys that signal. Every other event changes nothing.
pub open spec fn key_event_spec(
    mode: RealtimeMode,
    code: KeyInput,
    phase: KeyPhase,
    held_since: Option<u64>,
    now: u64,
    dit_dah: nat,
) -> (Option<u64>, Option<char>) {
    match mode {
        RealtimeMode::Single { key } => {
            if phase == KeyPhase::Press && key_matches(key, code) {
                (
                    match held_since {
                        Some(t) => Some(t),
                        None => Some(now),
                    },
                    None,
                )
            } else if phase == KeyPhase::Release && key_matches(key, code) {
                match held_since {
                    Some(p) => {
                        let held: nat = if now >= p { (now - p) as nat } else { 0 };
                        (None, Some(if held > dit_dah { '-' } else { '.' }))
                    },
                    None => (None, None),
                }
            } else {
                (held_since, None)
            }
        },
        RealtimeMode::Double { dot, dash } => {
            if phase == KeyPhase::Press && key_matches(dot, code) {
                (held_since, Some('.'))
            } else if phase == KeyPhase::Press && key_matches(dash, code) {
                (held_since, Some('-'))
            } else {
                (held_since, None)
            }
        },
    }
}

/// Applies one key event while keying, in the mode chosen, to the time the
/// key has been held since (nanoseconds from one starting point); gives the
/// new hold time and the signal keyed, if any.
pub fn key_event(
    mode: RealtimeMode,
    code: KeyInput,
    phase: KeyPhase,
    held_since: Option<u64>,
    now: u64,
    unit_ms: u32,
) -> (r: (Option<u64>, Option<char>))
    ensures
        r == key_event_spec(
            mode,
            code,
            phase,
            held_since,
            now,
            boundary_nanos(unit_ms, DIT_DAH_BOUNDARY_SQUARED_UNITS),
        ),
{
    match mode {
        RealtimeMode::Single { key } => {
            if phase == KeyPhase::Press && key.matches(code) {
                let mut held = held_since;
                record_initial_press(&mut held, now);
                (held, None)
            } else if phase == KeyPhase::Release && key.matches(code) {
                match held_since {
                    Some(pressed_at) => {
                        let held: u64 = if now >= pressed_at { now - pressed_at } else { 0 };
                        (None, Some(signal_for_hold(held, unit_ms)))
                    },
                    None => (None, None),
                }
            } else {
                (held_since, None)
            }
        },
        RealtimeMode::Double { dot, dash } => {
            if phase == KeyPhase::Press && dot.matches(code) {
                (held_since, Some('.'))
            } else if phase == KeyPhase::Press && dash.matches(code) {
                (held_since, Some('-'))
            } else {
                (held_since, None)
            }
        },
    }
}

/// Whatever key a session keys with, Tab, Enter and space among them,
/// pressing that key in single-key mode starts a hold at the time of the
/// press, and releasing it keys a dash after a hold longer than the boundary
/// and a dot otherwise; in double-key mode pressing the dot key keys a dot,
/// and pressing the dash key keys a dash unless the dot key matches it too.
pub proof fn law_chosen_key_keys(key: RealtimeKey, dot: RealtimeKey, dash: RealtimeKey, pressed_at: u64, now: u64, dit_dah: nat)
    ensures
        key_event_spec(RealtimeMode::Single { key }, named_input(key), KeyPhase::Press, None, now, dit_dah)
            == (Some(now), None::<char>),
        key_event_spec(RealtimeMode::Single { key }, named_input(key), KeyPhase::Release, Some(pressed_at), now, dit_dah)
            == (None::<u64>, Some(if now >= pressed_at && now - pressed_at > dit_dah { '-' } else { '.' })),
        key_event_spec(RealtimeMode::Double { dot, dash }, named_input(dot), KeyPhase::Press, None, now, dit_dah)
            == (None::<u64>, Some('.')),
        !key_matches(dot, named_input(dash)) ==> key_event_spec(
            RealtimeMode::Double { dot, dash },
            named_input(dash),
            KeyPhase::Press,
            None,
            now,
            dit_dah,
        ) == (None::<u64>, Some('-')),
{
    law_key_matches_its_input(key, ' ');
    law_key_matches_its_input(dot, ' ');
    law_key_matches_its_input(dash, ' ');
}

} // verus!
