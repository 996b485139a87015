use kafka_key_guestimator::layout::{first_chars_of, join_with_newlines, push_pad_left, push_pad_right, push_spaces};
use kafka_key_guestimator::telemetry::python_to_tracing_level;
use kafka_key_guestimator::text::{bool_text, i64_text, non_blank_trimmed_lines, u64_text};

#[test]
fn python_levels_map_to_tracing_levels() {
    assert_eq!(python_to_tracing_level("DEBUG"), "debug");
    assert_eq!(python_to_tracing_level("debug"), "debug");
    assert_eq!(python_to_tracing_level("WARNING"), "warn");
    assert_eq!(python_to_tracing_level("Warn"), "warn");
    assert_eq!(python_to_tracing_level("ERROR"), "error");
    assert_eq!(python_to_tracing_level("critical"), "error");
    assert_eq!(python_to_tracing_level("INFO"), "info");
    assert_eq!(python_to_tracing_level("trace"), "info");
    assert_eq!(python_to_tracing_level(""), "info");
    assert_eq!(python_to_tracing_level("débug"), "info");
}

#[test]
fn decimal_texts() {
    assert_eq!(u64_text(0), "0");
    assert_eq!(u64_text(18446744073709551615), "18446744073709551615");
    assert_eq!(i64_text(-7), "-7");
    assert_eq!(i64_text(i64::MAX), "9223372036854775807");
    assert_eq!(bool_text(true), "true");
}

#[test]
fn padding_and_joining() {
    let mut s = String::new();
    push_pad_left(&mut s, "ab", 4);
    s.push('|');
    push_pad_right(&mut s, "cd", 4);
    s.push('|');
    push_pad_left(&mut s, "toolong", 3);
    push_spaces(&mut s, 2);
    assert_eq!(s, "  ab|cd  |toolong  ");
    assert_eq!(first_chars_of("héllo", 2), "hé");
    assert_eq!(first_chars_of("hi", 5), "hi");
    assert_eq!(join_with_newlines(&vec!["a".to_string(), String::new(), "b".to_string()]), "a\n\nb");
    assert_eq!(join_with_newlines(&vec![]), "");
}

#[test]
fn lines_are_split_trimmed_and_filtered() {
    assert_eq!(non_blank_trimmed_lines(" a \n\n\tb\n  \n"), vec!["a", "b"]);
    assert_eq!(non_blank_trimmed_lines(""), Vec::<String>::new());
}
