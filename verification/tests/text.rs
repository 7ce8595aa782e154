use kuznor::code::types::{ScanCompleteness, ScanPartialReason, ScanReport};
use kuznor::models::{Profile, Score, MIN_RELEVANCE_BITS};
use kuznor::order::order_texts;
use kuznor::text::{
    decimal_string, halves, integer_string, joined, parse_integer, parse_number,
    pieces, pieces_of_words, replaced, text_lines, trimmed, CharClass,
};

#[test]
fn trimming_twice_is_trimming_once() {
    let once = trimmed(" \u{a0}\t hola mundo \u{2003}\n");
    assert_eq!(once, "hola mundo");
    assert_eq!(trimmed(&once), once);
    for text in ["", "  ", "\u{85}a\u{2028}", "\u{feff}b", "\u{200b}c"] {
        assert_eq!(trimmed(text), text.trim());
    }
}

#[test]
fn numbers_are_read_as_they_are_written() {
    for n in [0_u128, 7, 10, 999, 1_000_000] {
        assert_eq!(decimal_string(n), n.to_string());
        assert_eq!(parse_number(&decimal_string(n)), Some(n as usize));
    }
    assert_eq!(decimal_string(u128::MAX), u128::MAX.to_string());
    for n in [0_i64, -1, 42, i64::MAX, i64::MIN] {
        assert_eq!(integer_string(n), n.to_string());
        assert_eq!(parse_integer(&integer_string(n)), Some(n));
    }
    for text in ["", "-", "+", "+5", "-0", "9223372036854775808", "1a", " 1", "00012"] {
        assert_eq!(parse_integer(text), text.parse::<i64>().ok(), "{text}");
    }
}

#[test]
fn texts_are_split_and_joined() {
    let parts = pieces("a||b", CharClass::One('|'));
    assert_eq!(parts, ["a", "", "b"]);
    assert_eq!(joined(&parts, "|"), "a||b");
    assert_eq!(pieces_of_words("  a  b ", CharClass::White), ["a", "b"]);
    assert_eq!(halves("a:b:c", ':'), Some(("a".to_string(), "b:c".to_string())));
    assert_eq!(halves("abc", ':'), None);
    assert_eq!(replaced("aaa", "aa", "b"), "ba");
    for text in ["", "a", "a\n", "a\r\nb", "a\n\nb\r", "\n"] {
        assert_eq!(text_lines(text), text.lines().collect::<Vec<_>>(), "{text:?}");
    }
}

#[test]
fn texts_are_ordered_by_their_characters() {
    let texts = vec!["b".to_string(), "a".to_string(), "ab".to_string(), "a".to_string()];
    assert_eq!(order_texts(&texts), [1, 3, 2, 0]);
}

#[test]
fn a_profile_is_read_from_its_label() {
    for profile in [
        Profile::General,
        Profile::Programming,
        Profile::Business,
        Profile::Study,
        Profile::Documentation,
        Profile::Code,
    ] {
        assert_eq!(profile.label().parse(), Ok(profile));
        assert_eq!(Profile::from_name(profile.label()), profile);
        assert_eq!(profile.display(), profile.label());
        assert!(!profile.system_prompt().is_empty());
    }
    assert_eq!("Documentacion".parse(), Ok(Profile::Documentation));
    assert_eq!("otro".parse(), Ok(Profile::General));
    assert_eq!(Profile::ALL.len(), 3);
}

#[test]
fn scores_are_ordered_like_their_numbers() {
    let score = |value: f32| Score { bits: value.to_bits(), three: String::new(), four: String::new() };
    let values = [f32::NEG_INFINITY, -1.0, -0.0, 0.0, 0.19, 0.2, 1.0, f32::INFINITY];
    for pair in values.windows(2) {
        assert!(score(pair[0]).order() < score(pair[1]).order());
    }
    assert_eq!(MIN_RELEVANCE_BITS, 0.20_f32.to_bits());
    assert!(score(0.2).relevant());
    assert!(!score(0.19).relevant());
    assert!(!score(f32::NAN).relevant());
    assert_eq!(Score::one().bits, 1.0_f32.to_bits());
}

#[test]
fn a_partial_scan_stays_partial() {
    let mut report = ScanReport::complete();
    assert!(report.is_complete());
    report.mark_partial(ScanPartialReason::DepthLimit);
    report.mark_partial(ScanPartialReason::FileLimit);
    report.mark_partial(ScanPartialReason::DepthLimit);
    assert!(!report.is_complete());
    match report.completeness {
        ScanCompleteness::Partial(reasons) => {
            assert_eq!(reasons, [ScanPartialReason::DepthLimit, ScanPartialReason::FileLimit]);
        }
        ScanCompleteness::Complete => panic!("the scan is partial"),
    }
}
