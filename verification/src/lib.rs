//! Morse code translation: encoding English letters and digits, decoding
//! Morse, decoding Morse as it is keyed, and laying out its sound.
pub mod text;
pub mod table;
pub mod decode;
pub mod encode;
pub mod detect;
pub mod stream;
pub mod exam;
pub mod waveform;
pub mod timing;
pub mod realtime;
pub mod keys;
pub mod numbers;
pub mod laws;

pub use decode::decode_morse;
pub use encode::encode_text;
pub use detect::{InputKind, detect_input, translate};
pub use stream::MorseStreamDecoder;
pub use exam::{
    alphanumeric_content, morse_signal_count, ExamDirection, ExamQuestion, exam_question,
    exam_answer_content, exam_is_correct,
};
pub use waveform::Waveform;
pub use timing::{Segment, SynthesisPlan, synthesis_plan};
pub use realtime::{
    duration_for_units, finalize_realtime_idle, signal_for_hold, key_event, record_initial_press,
    DIT_DAH_BOUNDARY_SQUARED_UNITS, LETTER_WORD_BOUNDARY_SQUARED_UNITS,
};
pub use keys::{
    RealtimeKey, KeyInput, RealtimeMode, ModeChoice, KeyPhase, LifecycleNote,
    select_realtime_key, is_exit_key, mode_choice, double_mode, describe_key_lifecycle,
};
pub use numbers::{positive_unit, parse_positive_u64, output_path_for};
