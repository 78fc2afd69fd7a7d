use promptgen::chars_to_string;
use promptgen::parse_weight;
use promptgen::WeightErrorCause;
use promptgen::WEIGHT_ONE;

fn chars(s: &str) -> Vec<char> {
    s.chars().collect()
}

#[test]
fn no_colon_keeps_whole_segment() {
    let (text, w) = parse_weight(chars("abc"), false).unwrap();
    assert_eq!(text, chars("abc"));
    assert_eq!(w, WEIGHT_ONE);
}

#[test]
fn integer_weight() {
    let (text, w) = parse_weight(chars("a:2"), false).unwrap();
    assert_eq!(text, chars("a"));
    assert_eq!(w, 2_000_000);
}

#[test]
fn fractional_weights() {
    let (text, w) = parse_weight(chars("a:2.5"), false).unwrap();
    assert_eq!(text, chars("a"));
    assert_eq!(w, 2_500_000);
    let (_, w) = parse_weight(chars("a:.5"), false).unwrap();
    assert_eq!(w, 500_000);
    let (_, w) = parse_weight(chars("a:7."), false).unwrap();
    assert_eq!(w, 7_000_000);
    let (_, w) = parse_weight(chars("a:0.000001"), false).unwrap();
    assert_eq!(w, 1);
}

#[test]
fn last_colon_splits() {
    let (text, w) = parse_weight(chars("a:b:2"), false).unwrap();
    assert_eq!(text, chars("a:b"));
    assert_eq!(w, 2_000_000);
}

#[test]
fn empty_text_before_colon() {
    let (text, w) = parse_weight(chars(":5"), false).unwrap();
    assert_eq!(text, chars(""));
    assert_eq!(w, 5_000_000);
}

#[test]
fn unparsable_suffix_errors_or_falls_back() {
    let e = parse_weight(chars("a:x"), false).unwrap_err();
    assert_eq!(e.index, 2);
    assert_eq!(e.specifier, "x");
    assert_eq!(e.cause, WeightErrorCause::NotANumber);

    let (text, w) = parse_weight(chars("a:x"), true).unwrap();
    assert_eq!(text, chars("a:x"));
    assert_eq!(w, WEIGHT_ONE);
}

#[test]
fn empty_suffix_is_not_a_number() {
    let e = parse_weight(chars("a:"), false).unwrap_err();
    assert_eq!(e.index, 2);
    assert_eq!(e.specifier, "");
    assert_eq!(e.cause, WeightErrorCause::NotANumber);
}

#[test]
fn malformed_numbers_are_rejected() {
    for s in ["a:1.2.3", "a:1e3", "a:.", "a:-", "a:+1", "a: 1", "a:1 "] {
        let e = parse_weight(chars(s), false).unwrap_err();
        assert_eq!(e.cause, WeightErrorCause::NotANumber, "input {:?}", s);
    }
}

#[test]
fn too_many_digits_are_rejected() {
    // More than twelve integer digits or more than six fractional digits.
    let e = parse_weight(chars("a:1234567890123"), false).unwrap_err();
    assert_eq!(e.cause, WeightErrorCause::NotANumber);
    let e = parse_weight(chars("a:0.1234567"), false).unwrap_err();
    assert_eq!(e.cause, WeightErrorCause::NotANumber);
    let (_, w) = parse_weight(chars("a:999999999999.999999"), false).unwrap();
    assert_eq!(w, 999_999_999_999_999_999);
}

#[test]
fn negative_weight_is_always_an_error() {
    for tolerant in [false, true] {
        let e = parse_weight(chars("a:-1"), tolerant).unwrap_err();
        assert_eq!(e.index, 2);
        assert_eq!(e.specifier, "-1");
        assert_eq!(e.cause, WeightErrorCause::NegativeWeight);
    }
}

#[test]
fn negative_zero_is_zero() {
    let (text, w) = parse_weight(chars("a:-0"), false).unwrap();
    assert_eq!(text, chars("a"));
    assert_eq!(w, 0);
    let (_, w) = parse_weight(chars("a:-0.0"), false).unwrap();
    assert_eq!(w, 0);
}

#[test]
fn chars_to_string_round_trip() {
    assert_eq!(chars_to_string(&chars("héllo")), "héllo");
    assert_eq!(chars_to_string(&Vec::new()), "");
}
