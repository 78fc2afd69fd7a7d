use promptgen::expand;
use promptgen::GenerationOptions;
use promptgen::ParseError;
use promptgen::SelectionMode;
use promptgen::WeightErrorCause;

fn opts(mode: SelectionMode) -> GenerationOptions {
    GenerationOptions { selection_mode: mode, tolerate_malformed_weights: false }
}

fn opts_tolerant(mode: SelectionMode) -> GenerationOptions {
    GenerationOptions { selection_mode: mode, tolerate_malformed_weights: true }
}

const ALL_MODES: [SelectionMode; 5] = [
    SelectionMode::RandomWeighted,
    SelectionMode::Shortest,
    SelectionMode::Longest,
    SelectionMode::MostLikely,
    SelectionMode::LeastLikely,
];

#[test]
fn plain_text_unchanged_in_every_mode() {
    for mode in ALL_MODES {
        assert_eq!(expand("hello world", &opts(mode)).unwrap(), "hello world");
        assert_eq!(expand("", &opts(mode)).unwrap(), "");
    }
}

#[test]
fn trailing_weight_stripped_at_top_level() {
    // The implicit top-level frame is itself a one-choice group, so a
    // trailing weight specifier is parsed and stripped even without braces.
    assert_eq!(expand("hello:2", &opts(SelectionMode::Shortest)).unwrap(), "hello");
    assert_eq!(expand("hello:2", &opts(SelectionMode::RandomWeighted)).unwrap(), "hello");
}

#[test]
fn top_level_malformed_weight_tolerance() {
    // Not a number after the final colon: an error unless tolerated.
    let r = expand("a:x", &opts(SelectionMode::Shortest));
    match r {
        Err(ParseError::InvalidWeightSpecifier { offset, specifier, cause }) => {
            assert_eq!(offset, 2);
            assert_eq!(specifier, "x");
            assert_eq!(cause, WeightErrorCause::NotANumber);
        },
        other => panic!("expected InvalidWeightSpecifier, got {:?}", other),
    }
    assert_eq!(expand("a:x", &opts_tolerant(SelectionMode::Shortest)).unwrap(), "a:x");
}

#[test]
fn simple_choice_only_listed_alternatives() {
    let o = opts(SelectionMode::RandomWeighted);
    let mut abd = 0;
    let mut acd = 0;
    for _ in 0..2000 {
        let out = expand("a{b|c}d", &o).unwrap();
        if out == "abd" {
            abd += 1;
        } else if out == "acd" {
            acd += 1;
        } else {
            panic!("unexpected expansion {:?}", out);
        }
    }
    // Equal weights: both should appear about half the time each.
    assert!(abd > 800 && abd < 1200, "abd count {} out of 2000", abd);
    assert!(acd > 800 && acd < 1200, "acd count {} out of 2000", acd);
}

#[test]
fn weighted_choice_ratio() {
    let o = opts(SelectionMode::RandomWeighted);
    let mut ball = 0;
    let mut boxes = 0;
    for _ in 0..10000 {
        let out = expand("{ball:1|box:3}", &o).unwrap();
        if out == "ball" {
            ball += 1;
        } else if out == "box" {
            boxes += 1;
        } else {
            panic!("unexpected expansion {:?}", out);
        }
    }
    // box carries 3/4 of the weight: expect about 7500 of 10000.
    assert!(boxes > 7200 && boxes < 7800, "box count {} out of 10000", boxes);
    assert_eq!(ball + boxes, 10000);
}

#[test]
fn unexpected_closing_brace_at_final_brace() {
    let t = "this {{large |}cake|{loud|tiny} boat} is not very nice}";
    let expected = t.chars().count() - 1;
    for mode in ALL_MODES {
        match expand(t, &opts(mode)) {
            Err(ParseError::UnexpectedClosingBrace(off)) => assert_eq!(off, expected),
            other => panic!("expected UnexpectedClosingBrace, got {:?}", other),
        }
    }
}

#[test]
fn unclosed_brace_at_opening_offset() {
    for mode in ALL_MODES {
        match expand("a {b|c", &opts(mode)) {
            Err(ParseError::UnclosedBrace(off)) => assert_eq!(off, 2),
            other => panic!("expected UnclosedBrace, got {:?}", other),
        }
    }
}

#[test]
fn unclosed_brace_reports_innermost() {
    match expand("a{b{c", &opts(SelectionMode::Shortest)) {
        Err(ParseError::UnclosedBrace(off)) => assert_eq!(off, 3),
        other => panic!("expected UnclosedBrace, got {:?}", other),
    }
}

#[test]
fn offsets_are_character_offsets_not_bytes() {
    // Two two-byte characters precede the brace: its char offset is 2.
    match expand("éé{a|b", &opts(SelectionMode::Shortest)) {
        Err(ParseError::UnclosedBrace(off)) => assert_eq!(off, 2),
        other => panic!("expected UnclosedBrace, got {:?}", other),
    }
    match expand("éé:x", &opts(SelectionMode::Shortest)) {
        Err(ParseError::InvalidWeightSpecifier { offset, specifier, .. }) => {
            assert_eq!(offset, 3);
            assert_eq!(specifier, "x");
        },
        other => panic!("expected InvalidWeightSpecifier, got {:?}", other),
    }
}

#[test]
fn invalid_weight_in_group() {
    match expand("{a:x|b}", &opts(SelectionMode::RandomWeighted)) {
        Err(ParseError::InvalidWeightSpecifier { offset, specifier, cause }) => {
            assert_eq!(offset, 3);
            assert_eq!(specifier, "x");
            assert_eq!(cause, WeightErrorCause::NotANumber);
        },
        other => panic!("expected InvalidWeightSpecifier, got {:?}", other),
    }
    // Tolerant: the whole segment is literal text with weight 1.
    let o = opts_tolerant(SelectionMode::RandomWeighted);
    let mut ax = 0;
    let mut b = 0;
    for _ in 0..2000 {
        let out = expand("{a:x|b}", &o).unwrap();
        if out == "a:x" {
            ax += 1;
        } else if out == "b" {
            b += 1;
        } else {
            panic!("unexpected expansion {:?}", out);
        }
    }
    assert!(ax > 800 && ax < 1200, "a:x count {} out of 2000", ax);
    assert!(b > 800 && b < 1200, "b count {} out of 2000", b);
}

#[test]
fn negative_weight_always_fails() {
    for tolerant in [false, true] {
        for mode in ALL_MODES {
            let o = GenerationOptions {
                selection_mode: mode,
                tolerate_malformed_weights: tolerant,
            };
            match expand("{a:-1|b}", &o) {
                Err(ParseError::InvalidWeightSpecifier { offset, specifier, cause }) => {
                    assert_eq!(offset, 3);
                    assert_eq!(specifier, "-1");
                    assert_eq!(cause, WeightErrorCause::NegativeWeight);
                },
                other => panic!("expected negative-weight error, got {:?}", other),
            }
        }
    }
}

#[test]
fn shortest_and_longest_are_extremal() {
    let t = "a{b|c}d{x|yy}";
    assert_eq!(expand(t, &opts(SelectionMode::Shortest)).unwrap(), "abdx");
    assert_eq!(expand(t, &opts(SelectionMode::Longest)).unwrap(), "acdyy");
    let shortest = expand(t, &opts(SelectionMode::Shortest)).unwrap();
    let longest = expand(t, &opts(SelectionMode::Longest)).unwrap();
    assert!(shortest.chars().count() <= longest.chars().count());
}

#[test]
fn shortest_breaks_ties_first_longest_last() {
    // Equal lengths: Shortest keeps the first alternative, Longest the last.
    assert_eq!(expand("{aa|bb}", &opts(SelectionMode::Shortest)).unwrap(), "aa");
    assert_eq!(expand("{aa|bb}", &opts(SelectionMode::Longest)).unwrap(), "bb");
}

#[test]
fn most_and_least_likely_follow_weights() {
    let t = "{a:1|b:3|c:2}";
    assert_eq!(expand(t, &opts(SelectionMode::MostLikely)).unwrap(), "b");
    assert_eq!(expand(t, &opts(SelectionMode::LeastLikely)).unwrap(), "a");
    // Equal weights: MostLikely keeps the last alternative, LeastLikely the
    // first.
    assert_eq!(expand("{x|y}", &opts(SelectionMode::MostLikely)).unwrap(), "y");
    assert_eq!(expand("{x|y}", &opts(SelectionMode::LeastLikely)).unwrap(), "x");
}

#[test]
fn deterministic_modes_are_idempotent() {
    let t = "this {{large |}cake|{loud|tiny} boat} is not very nice";
    for mode in [
        SelectionMode::Shortest,
        SelectionMode::Longest,
        SelectionMode::MostLikely,
        SelectionMode::LeastLikely,
    ] {
        let first = expand(t, &opts(mode)).unwrap();
        let second = expand(t, &opts(mode)).unwrap();
        assert_eq!(first, second);
    }
    assert_eq!(
        expand(t, &opts(SelectionMode::Shortest)).unwrap(),
        "this cake is not very nice",
    );
}

#[test]
fn nested_groups_resolve_innermost_first() {
    let t = "this {{large |}cake|{loud|tiny} boat} is not very nice";
    let allowed = [
        "this cake is not very nice",
        "this large cake is not very nice",
        "this loud boat is not very nice",
        "this tiny boat is not very nice",
    ];
    let o = opts(SelectionMode::RandomWeighted);
    for _ in 0..500 {
        let out = expand(t, &o).unwrap();
        assert!(allowed.contains(&out.as_str()), "unexpected expansion {:?}", out);
    }
}

#[test]
fn zero_weight_never_selected_when_total_positive() {
    let o = opts(SelectionMode::RandomWeighted);
    for _ in 0..500 {
        assert_eq!(expand("{a:0|b:1}", &o).unwrap(), "b");
    }
}

#[test]
fn all_zero_weights_fall_back_to_uniform() {
    let o = opts(SelectionMode::RandomWeighted);
    let mut a = 0;
    let mut b = 0;
    for _ in 0..2000 {
        let out = expand("{a:0|b:0}", &o).unwrap();
        if out == "a" {
            a += 1;
        } else if out == "b" {
            b += 1;
        } else {
            panic!("unexpected expansion {:?}", out);
        }
    }
    assert!(a > 800 && a < 1200, "a count {} out of 2000", a);
    assert!(b > 800 && b < 1200, "b count {} out of 2000", b);
}

#[test]
fn weight_applies_to_final_segment_of_alternative() {
    // The weight specifier of an alternative sits in its final literal
    // segment, after any nested group.
    assert_eq!(expand("{a{b}c:2|d}", &opts(SelectionMode::MostLikely)).unwrap(), "abc");
    // Literal colons before the last one stay in the text.
    assert_eq!(expand("{a:b:2|c}", &opts(SelectionMode::MostLikely)).unwrap(), "a:b");
}

#[test]
fn empty_group_and_empty_alternatives() {
    assert_eq!(expand("x{}y", &opts(SelectionMode::Shortest)).unwrap(), "xy");
    assert_eq!(expand("x{|longer}y", &opts(SelectionMode::Shortest)).unwrap(), "xy");
    assert_eq!(expand("x{|longer}y", &opts(SelectionMode::Longest)).unwrap(), "xlongery");
}

#[test]
fn fractional_weights_select_extremes() {
    let t = "{a:0.5|b:1.25|c:0.75}";
    assert_eq!(expand(t, &opts(SelectionMode::MostLikely)).unwrap(), "b");
    assert_eq!(expand(t, &opts(SelectionMode::LeastLikely)).unwrap(), "a");
}
