use morse::{
    exam_answer_content, exam_is_correct, exam_question, output_path_for, parse_positive_u64,
    positive_unit, synthesis_plan, ExamDirection, Segment,
};

#[test]
fn units_are_read_as_whole_milliseconds() {
    assert_eq!(positive_unit("80").unwrap(), 80);
    assert_eq!(positive_unit("+10000").unwrap(), 10_000);
    assert_eq!(positive_unit("0").unwrap_err(), "unit must be between 1 and 10000 ms");
    assert_eq!(positive_unit("10001").unwrap_err(), "unit must be between 1 and 10000 ms");
    assert_eq!(positive_unit("4294967296").unwrap_err(), "unit must be a positive integer");
    assert_eq!(positive_unit("-5").unwrap_err(), "unit must be a positive integer");
    assert_eq!(positive_unit("").unwrap_err(), "unit must be a positive integer");
    assert_eq!(positive_unit("+").unwrap_err(), "unit must be a positive integer");
    assert_eq!(positive_unit(" 5").unwrap_err(), "unit must be a positive integer");
    assert_eq!(parse_positive_u64("18446744073709551615").unwrap(), u64::MAX);
    assert_eq!(
        parse_positive_u64("18446744073709551616").unwrap_err(),
        "unit must be a positive integer"
    );
    assert_eq!(parse_positive_u64("0").unwrap_err(), "unit must be greater than zero");
    assert_eq!(parse_positive_u64("12a").unwrap_err(), "unit must be a positive integer");
}

#[test]
fn output_paths_carry_the_timestamp() {
    assert_eq!(output_path_for(1_753_334_400_000), "audio/morse-1753334400000.ogg");
    assert_eq!(output_path_for(0), "audio/morse-0.ogg");
}

#[test]
fn plans_follow_the_unit_rules() {
    let plan = synthesis_plan(".. -  .-/-\t-", 10, 1_000);
    assert_eq!(plan.unit_samples, 10);
    assert_eq!(plan.fade_samples, 5);
    let expected = [
        (true, 10),
        (false, 10),
        (true, 10),
        (false, 30),
        (true, 30),
        (false, 70),
        (true, 10),
        (false, 10),
        (true, 30),
        (false, 70),
        (true, 30),
        (false, 140),
        (true, 30),
    ];
    let got: Vec<(bool, u64)> = plan.segments.iter().map(|s: &Segment| (s.tone, s.samples)).collect();
    assert_eq!(got, expected.to_vec());
    assert_eq!(plan.total_samples(), 480);
    let tiny = synthesis_plan(".", 1, 100);
    assert_eq!(tiny.unit_samples, 1);
    assert_eq!(tiny.fade_samples, 0);
    let wide = synthesis_plan("-", 80, 44_100);
    assert_eq!(wide.unit_samples, 3_528);
    assert_eq!(wide.fade_samples, 220);
    assert_eq!(wide.total_samples(), 3 * 3_528);
}

#[test]
fn exams_compare_letters_and_digits_only() {
    let q = exam_question(ExamDirection::Encode, "SOS 2").unwrap();
    assert_eq!(q.expected, "SOS2");
    assert_eq!(q.expected_answer, "... --- ...  ..---");
    assert_eq!(q.question_morse, "... --- ...  ..---");
    assert!(exam_is_correct(ExamDirection::Encode, &q.expected, "··· ___ ··· / ··___"));
    assert!(!exam_is_correct(ExamDirection::Encode, &q.expected, "... --- ..."));
    assert_eq!(exam_answer_content(ExamDirection::Encode, "nonsense"), "");

    let q = exam_question(ExamDirection::Decode, "... --- ...  ..---").unwrap();
    assert_eq!(q.expected, "SOS2");
    assert_eq!(q.expected_answer, "SOS 2");
    assert_eq!(q.question_morse, "... --- ...  ..---");
    assert!(exam_is_correct(ExamDirection::Decode, &q.expected, "s.o.s-2"));
    assert!(!exam_is_correct(ExamDirection::Decode, &q.expected, "SOS"));

    assert_eq!(
        exam_question(ExamDirection::Decode, " / ").unwrap_err(),
        "exam question must contain at least one English letter or digit"
    );
    assert_eq!(exam_question(ExamDirection::Encode, "a?").unwrap_err(), "unsupported character '?'");
}
