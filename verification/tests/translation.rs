use morse::{
    alphanumeric_content, decode_morse, detect_input, encode_text, morse_signal_count,
    synthesis_plan, translate, InputKind, MorseStreamDecoder, Waveform,
};

#[test]
fn translates_text_to_morse() {
    assert_eq!(encode_text("SOS 2").unwrap(), "... --- ...  ..---");
}

#[test]
fn translates_morse_to_text() {
    assert_eq!(decode_morse("... --- ...  ..---").unwrap(), "SOS 2");
}

#[test]
fn accepts_alternate_morse_symbols() {
    assert_eq!(decode_morse("··· ___ ··· / ··___").unwrap(), "SOS 2");
    assert_eq!(detect_input("·_·").unwrap(), InputKind::Morse);
}

#[test]
fn decodes_requested_whitespace_boundaries() {
    assert_eq!(decode_morse(".- -...").unwrap(), "AB");
    assert_eq!(decode_morse(".-  -...").unwrap(), "A B");
    assert_eq!(decode_morse(".-   -...").unwrap(), "A\n\nB");
    assert_eq!(decode_morse(".-\t-...").unwrap(), "A\n\nB");
    assert_eq!(decode_morse(".- \n -...").unwrap(), "A\n\nB");
}

#[test]
fn normalizes_exam_content_and_counts_signals() {
    assert_eq!(alphanumeric_content("s-o_s 2"), "SOS2");
    assert_eq!(morse_signal_count(".- ·_ /"), 4);
}

#[test]
fn distinguishes_charsets() {
    assert_eq!(detect_input("Hello 2").unwrap(), InputKind::Text);
    assert_eq!(detect_input(".... ..").unwrap(), InputKind::Morse);
    assert!(detect_input("Hello!").is_err());
}

#[test]
fn morse_timing_is_correct() {
    // .- has 1 tone + 1 gap + 3 tone units.
    assert_eq!(synthesis_plan(".-", 10, 1_000).total_samples(), 50);
}

#[test]
fn streams_morse_as_it_is_keyed() {
    let mut decoder = MorseStreamDecoder::default();
    decoder.push_signal('.').unwrap();
    decoder.push_signal('.').unwrap();
    decoder.push_signal('.').unwrap();
    assert_eq!(decoder.morse(), "...");
    assert_eq!(decoder.display_text(), "S");
    assert!(decoder.finish_letter());
    decoder.push_signal('-').unwrap();
    decoder.push_signal('-').unwrap();
    decoder.push_signal('-').unwrap();
    decoder.finish_word();
    assert_eq!(decoder.finalized_text(), "SO ");
}

#[test]
fn streams_invalid_morse_without_stopping() {
    let mut decoder = MorseStreamDecoder::default();
    for signal in ".-.-.-".chars() {
        decoder.push_signal(signal).unwrap();
    }
    decoder.finish_letter();
    decoder.push_signal('.').unwrap();
    decoder.finish_letter();
    assert_eq!(decoder.finalized_text(), "?E");
}

#[test]
fn eight_dits_are_the_realtime_error_backspace_prosign() {
    let mut decoder = MorseStreamDecoder::default();
    decoder.push_signal('.').unwrap();
    decoder.finish_letter();
    for _ in 0..8 {
        decoder.push_signal('.').unwrap();
    }
    assert_eq!(decoder.display_text(), "E⌫");
    assert!(decoder.finish_letter());
    assert_eq!(decoder.finalized_text(), "");
}

#[test]
fn waveform_names_parse_in_any_case() {
    assert_eq!(Waveform::parse("SIN").unwrap(), Waveform::Sine);
    assert_eq!(Waveform::parse("sine").unwrap(), Waveform::Sine);
    assert_eq!(Waveform::parse("Square").unwrap(), Waveform::Square);
    assert_eq!(Waveform::parse("tri").unwrap(), Waveform::Triangle);
    assert_eq!(Waveform::parse("triangle").unwrap(), Waveform::Triangle);
    assert_eq!(Waveform::parse("saw").unwrap(), Waveform::Sawtooth);
    assert_eq!(Waveform::parse("SawTooth").unwrap(), Waveform::Sawtooth);
    assert_eq!(Waveform::parse("piano").unwrap(), Waveform::Piano);
    assert_eq!(
        Waveform::parse("flute").unwrap_err(),
        "unsupported timbre 'flute'; use sine, square, triangle, sawtooth, or piano"
    );
}

#[test]
fn translate_reports_direction_and_canonical_morse() {
    let (kind, translation, audio) = translate("Hello 2026").unwrap();
    assert_eq!(kind, InputKind::Text);
    assert_eq!(translation, ".... . .-.. .-.. ---  ..--- ----- ..--- -....");
    assert_eq!(audio, translation);
    let (kind, translation, audio) = translate("··· --- ... / ..---").unwrap();
    assert_eq!(kind, InputKind::Morse);
    assert_eq!(translation, "SOS 2");
    assert_eq!(audio, "... --- ...  ..---");
}

#[test]
fn decode_of_encode_gives_the_words_in_upper_case() {
    let text = "  hello\tWorld 42\n";
    let morse = encode_text(text).unwrap();
    assert_eq!(decode_morse(&morse).unwrap(), "HELLO WORLD 42");
}

#[test]
fn errors_name_the_offending_input() {
    assert_eq!(encode_text("ab!c").unwrap_err(), "unsupported character '!'");
    assert_eq!(encode_text("é").unwrap_err(), "unsupported character 'é'");
    assert_eq!(decode_morse("........ .-").unwrap_err(), "unknown Morse sequence '........'");
    assert_eq!(decode_morse("·_·_·_·_·_").unwrap_err(), "unknown Morse sequence '.-.-.-.-.-'");
    assert_eq!(decode_morse(".-x").unwrap_err(), "invalid Morse character 'x'");
    assert_eq!(detect_input(" \t\n").unwrap_err(), "input is empty");
    assert_eq!(
        detect_input("Hello!").unwrap_err(),
        "input must contain either Morse symbols (., ·, -, _, /) or English letters and digits"
    );
    assert_eq!(translate("x!").unwrap_err(), detect_input("x!").unwrap_err());
}

#[test]
fn decoding_edge_cases() {
    assert_eq!(decode_morse("").unwrap(), "");
    assert_eq!(decode_morse("   .-   ").unwrap(), "A");
    assert_eq!(decode_morse(".- / / -...").unwrap(), "A B");
    assert_eq!(decode_morse(".-/-...").unwrap(), "A B");
    assert_eq!(decode_morse(".-  /  -...").unwrap(), "A B");
    assert_eq!(decode_morse(".-  /   -...").unwrap(), "A\n\nB");
    assert_eq!(decode_morse("-----\r\n.----").unwrap(), "0\n\n1");
    assert_eq!(detect_input("\u{a0}.-\u{3000}").unwrap(), InputKind::Morse);
    assert_eq!(
        detect_input(".-\x0C-...").unwrap_err(),
        "input must contain either Morse symbols (., ·, -, _, /) or English letters and digits"
    );
    assert_eq!(decode_morse(".-\x0C-...").unwrap(), "A\n\nB");
}

#[test]
fn every_letter_round_trips() {
    let alphabet = "ABCDEFGHIJKLMNOPQRSTUVWXYZ0123456789";
    for c in alphabet.chars() {
        let code = encode_text(&c.to_string()).unwrap();
        assert_eq!(decode_morse(&code).unwrap(), c.to_string());
        let lower = c.to_ascii_lowercase().to_string();
        assert_eq!(encode_text(&lower).unwrap(), code);
    }
}

#[test]
fn finish_word_is_idempotent_and_letters_come_from_the_table() {
    let mut decoder = MorseStreamDecoder::default();
    assert!(!decoder.finish_word());
    decoder.push_signal('-').unwrap();
    decoder.push_signal('.').unwrap();
    decoder.push_signal('-').unwrap();
    decoder.push_signal('.').unwrap();
    assert_eq!(decoder.display_text(), "C");
    assert!(decoder.finish_word());
    assert_eq!(decoder.finalized_text(), "C ");
    assert!(!decoder.finish_word());
    assert_eq!(decoder.finalized_text(), "C ");
    assert_eq!(decoder.push_signal('x').unwrap_err(), "invalid Morse signal 'x'");
    assert_eq!(decoder.morse(), "");
}

#[test]
fn translating_the_morse_of_a_text_gives_the_text_back() {
    let (_, morse, _) = translate("Morse 5\tcode").unwrap();
    let (kind, text, audio) = translate(&morse).unwrap();
    assert_eq!(kind, InputKind::Morse);
    assert_eq!(text, "MORSE 5 CODE");
    assert_eq!(audio, morse);
    assert_eq!(
        decode_morse("··· _ ·_").unwrap(),
        decode_morse("... - .-").unwrap()
    );
}

#[test]
fn encoding_ignores_case_and_spacing() {
    let text = "  Hello\t\tworld 42 ";
    let morse = encode_text(text).unwrap();
    assert_eq!(encode_text(&text.to_ascii_uppercase()).unwrap(), morse);
    assert_eq!(encode_text(&text.to_ascii_lowercase()).unwrap(), morse);
    let spaced = text.split_whitespace().collect::<Vec<_>>().join(" ");
    assert_eq!(encode_text(&spaced).unwrap(), morse);
    assert_eq!(encode_text("a b!"), encode_text("A  B!"));
}

#[test]
fn reencoding_decoded_morse_keeps_its_signals() {
    for morse in ["... --- ...  ..---", "··· ___ / ·-·  -", ".-\t-...   -.-.", "  .  "] {
        let text = decode_morse(morse).unwrap();
        let again = encode_text(&text).unwrap();
        assert_eq!(morse_signal_count(&again), morse_signal_count(morse));
    }
}

#[test]
fn decoding_reads_letters_and_gaps() {
    assert_eq!(decode_morse(" / .- / -... ").unwrap(), "A B");
    assert_eq!(decode_morse(".- \t / -...").unwrap(), "A\n\nB");
    assert_eq!(decode_morse(".- -... -.-.").unwrap(), "ABC");
}
