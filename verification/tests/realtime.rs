use std::time::{Duration, Instant};

use morse::{
    describe_key_lifecycle, double_mode, key_event, duration_for_units, finalize_realtime_idle,
    is_exit_key, mode_choice, record_initial_press, select_realtime_key, signal_for_hold,
    KeyInput, KeyPhase, LifecycleNote, ModeChoice, MorseStreamDecoder, RealtimeKey, RealtimeMode,
    DIT_DAH_BOUNDARY_SQUARED_UNITS, LETTER_WORD_BOUNDARY_SQUARED_UNITS,
};

const MS: u64 = 1_000_000;

#[test]
fn held_dash_does_not_end_the_previous_letter() {
    let mut decoder = MorseStreamDecoder::default();
    decoder.push_signal('-').unwrap();
    decoder.push_signal('.').unwrap();
    let now = 10_000 * MS;
    let ago = now - 300 * MS;
    assert!(!finalize_realtime_idle(&mut decoder, Some(ago), now, 100, true));
    decoder.push_signal('-').unwrap();
    decoder.push_signal('.').unwrap();
    decoder.finish_letter();
    assert_eq!(decoder.finalized_text(), "C");
}

#[test]
fn geometric_mean_boundaries_separate_morse_timings() {
    assert_eq!(duration_for_units(100, DIT_DAH_BOUNDARY_SQUARED_UNITS) / MS, 173);
    assert_eq!(duration_for_units(100, LETTER_WORD_BOUNDARY_SQUARED_UNITS) / MS, 458);
}

#[test]
fn geometric_mean_gap_ends_letters_and_words() {
    let now = 10_000 * MS;
    let mut decoder = MorseStreamDecoder::default();
    decoder.push_signal('.').unwrap();
    assert!(!finalize_realtime_idle(&mut decoder, Some(now - 170 * MS), now, 100, false));
    assert!(finalize_realtime_idle(&mut decoder, Some(now - 180 * MS), now, 100, false));
    assert_eq!(decoder.finalized_text(), "E");
    assert!(finalize_realtime_idle(&mut decoder, Some(now - 460 * MS), now, 100, false));
    assert_eq!(decoder.finalized_text(), "E ");
}

#[test]
fn repeated_press_does_not_shorten_a_hold() {
    let pressed_at = Instant::now();
    let mut held_since = None;
    record_initial_press(&mut held_since, pressed_at);
    record_initial_press(&mut held_since, pressed_at + Duration::from_millis(250));
    assert_eq!(held_since, Some(pressed_at));
    let held = (pressed_at + Duration::from_millis(250)).duration_since(held_since.unwrap());
    assert!(held.as_nanos() as u64 > duration_for_units(100, DIT_DAH_BOUNDARY_SQUARED_UNITS));
}

#[test]
fn lifecycle_preserves_initial_press_across_duplicate_press() {
    let threshold = 50 * MS;
    let start = 1_000 * MS;
    let (note, held) = describe_key_lifecycle(None, KeyPhase::Press, start, threshold);
    assert_eq!(note, LifecycleNote::Tracking);
    let (note, held) = describe_key_lifecycle(held, KeyPhase::Press, start + 30 * MS, threshold);
    assert_eq!(note, LifecycleNote::DuplicatePress);
    let (note, held) = describe_key_lifecycle(held, KeyPhase::Release, start + 80 * MS, threshold);
    assert_eq!(note, LifecycleNote::Released { held_nanos: 80 * MS, dah: true });
    assert_eq!(held, None);
}

#[test]
fn release_without_press_is_reported() {
    let (note, held) = describe_key_lifecycle(None, KeyPhase::Release, 5 * MS, 50 * MS);
    assert_eq!(note, LifecycleNote::ReleaseWithoutPress);
    assert_eq!(held, None);
}

#[test]
fn repeats_report_the_hold_so_far() {
    let (note, held) = describe_key_lifecycle(Some(10 * MS), KeyPhase::Repeat, 40 * MS, 50 * MS);
    assert_eq!(note, LifecycleNote::Held { held_nanos: 30 * MS });
    assert_eq!(held, Some(10 * MS));
    let (note, held) = describe_key_lifecycle(None, KeyPhase::Repeat, 40 * MS, 50 * MS);
    assert_eq!(note, LifecycleNote::RepeatWithoutPress);
    assert_eq!(held, None);
    let (note, _) = describe_key_lifecycle(Some(10 * MS), KeyPhase::Release, 40 * MS, 50 * MS);
    assert_eq!(note, LifecycleNote::Released { held_nanos: 30 * MS, dah: false });
}

#[test]
fn holds_and_pauses_of_whole_units() {
    // A one-unit hold is a dot, a three-unit hold a dash.
    assert_eq!(signal_for_hold(100 * MS, 100), '.');
    assert_eq!(signal_for_hold(300 * MS, 100), '-');
    assert_eq!(signal_for_hold(173 * MS, 100), '.');
    assert_eq!(signal_for_hold(174 * MS, 100), '-');
    // A one-unit pause keeps the letter open, three units end it, seven end the word.
    let now = 10_000 * MS;
    let mut decoder = MorseStreamDecoder::default();
    decoder.push_signal('-').unwrap();
    assert!(!finalize_realtime_idle(&mut decoder, Some(now - 100 * MS), now, 100, false));
    assert!(!finalize_realtime_idle(&mut decoder, None, now, 100, false));
    assert!(finalize_realtime_idle(&mut decoder, Some(now - 300 * MS), now, 100, false));
    assert_eq!(decoder.finalized_text(), "T");
    assert!(finalize_realtime_idle(&mut decoder, Some(now - 700 * MS), now, 100, false));
    assert_eq!(decoder.finalized_text(), "T ");
    assert!(!finalize_realtime_idle(&mut decoder, Some(now + 5 * MS), now, 100, false));
}

#[test]
fn keys_are_chosen_by_name_or_character() {
    assert_eq!(select_realtime_key(" Space\n").unwrap(), RealtimeKey::Space);
    assert_eq!(select_realtime_key("return").unwrap(), RealtimeKey::Enter);
    assert_eq!(select_realtime_key("ENTER").unwrap(), RealtimeKey::Enter);
    assert_eq!(select_realtime_key("tab").unwrap(), RealtimeKey::Tab);
    assert_eq!(select_realtime_key("k\n").unwrap(), RealtimeKey::Char('k'));
    assert_eq!(
        select_realtime_key("ab").unwrap_err(),
        "enter one character, or use space, enter, or tab"
    );
    assert_eq!(
        select_realtime_key("\u{1b}").unwrap_err(),
        "Escape is reserved for exiting real-time mode"
    );
    assert!(RealtimeKey::Char('k').matches(KeyInput::Char('K')));
    assert!(!RealtimeKey::Char('k').matches(KeyInput::Char('j')));
    assert!(RealtimeKey::Space.matches(KeyInput::Char(' ')));
    assert!(RealtimeKey::Enter.matches(KeyInput::Enter));
    assert!(!RealtimeKey::Tab.matches(KeyInput::Enter));
    assert_eq!(RealtimeKey::Space.label(), "space");
    assert_eq!(RealtimeKey::Char('x').label(), "x");
    assert!(is_exit_key(KeyInput::Esc, false));
    assert!(is_exit_key(KeyInput::Char('c'), true));
    assert!(!is_exit_key(KeyInput::Char('c'), false));
}

#[test]
fn modes_are_chosen_by_number_or_name() {
    assert_eq!(mode_choice("1\n").unwrap(), ModeChoice::Single);
    assert_eq!(mode_choice(" double ").unwrap(), ModeChoice::Double);
    assert_eq!(mode_choice("3").unwrap_err(), "choose 1 (single key) or 2 (double key)");
    assert_eq!(
        double_mode(RealtimeKey::Char('j'), RealtimeKey::Char('k')).unwrap(),
        RealtimeMode::Double { dot: RealtimeKey::Char('j'), dash: RealtimeKey::Char('k') }
    );
    assert_eq!(
        double_mode(RealtimeKey::Tab, RealtimeKey::Tab).unwrap_err(),
        "dot and dash must use different keys"
    );
}

#[test]
fn key_events_key_signals_by_mode() {
    let single = RealtimeMode::Single { key: RealtimeKey::Space };
    let space = KeyInput::Char(' ');
    // A press starts a hold; a repeated press keeps the first time.
    assert_eq!(key_event(single, space, KeyPhase::Press, None, 10 * MS, 100), (Some(10 * MS), None));
    assert_eq!(key_event(single, space, KeyPhase::Press, Some(10 * MS), 90 * MS, 100), (Some(10 * MS), None));
    // Releases key a dot or a dash by the hold's length.
    assert_eq!(key_event(single, space, KeyPhase::Release, Some(10 * MS), 110 * MS, 100), (None, Some('.')));
    assert_eq!(key_event(single, space, KeyPhase::Release, Some(10 * MS), 310 * MS, 100), (None, Some('-')));
    // A release without a press, a repeat, or another key keys nothing.
    assert_eq!(key_event(single, space, KeyPhase::Release, None, 310 * MS, 100), (None, None));
    assert_eq!(key_event(single, space, KeyPhase::Repeat, Some(10 * MS), 310 * MS, 100), (Some(10 * MS), None));
    assert_eq!(key_event(single, KeyInput::Enter, KeyPhase::Release, Some(10 * MS), 310 * MS, 100), (Some(10 * MS), None));

    let double = RealtimeMode::Double { dot: RealtimeKey::Char('j'), dash: RealtimeKey::Char('k') };
    assert_eq!(key_event(double, KeyInput::Char('J'), KeyPhase::Press, None, 0, 100), (None, Some('.')));
    assert_eq!(key_event(double, KeyInput::Char('k'), KeyPhase::Press, None, 0, 100), (None, Some('-')));
    assert_eq!(key_event(double, KeyInput::Char('k'), KeyPhase::Release, None, 0, 100), (None, None));
    assert_eq!(key_event(double, KeyInput::Tab, KeyPhase::Press, None, 0, 100), (None, None));
}

#[test]
fn keyed_text_stays_well_formed() {
    let mut decoder = MorseStreamDecoder::default();
    assert!(!decoder.finish_word());
    assert_eq!(decoder.finalized_text(), "");
    for signal in "..--..".chars() {
        decoder.push_signal(signal).unwrap();
    }
    decoder.finish_word();
    decoder.finish_word();
    decoder.push_signal('.').unwrap();
    decoder.finish_word();
    assert_eq!(decoder.finalized_text(), "? E ");
    for _ in 0..8 {
        decoder.push_signal('.').unwrap();
    }
    decoder.finish_letter();
    assert_eq!(decoder.finalized_text(), "? E");
}
