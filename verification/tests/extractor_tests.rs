use codetype::exercise::IndentUnit;
use codetype::extractor::{
    collapse_blank_lines, common_byte_prefix, dedent, detect_indent_unit, leading_whitespace,
    strip_ranges, ExtractError, LengthFilter, SizeFit,
};

#[test]
fn classify_fits() {
    let f = LengthFilter::default();
    assert!(matches!(f.classify(10, 200), SizeFit::Fits));
}

#[test]
fn classify_too_small_by_lines() {
    let f = LengthFilter::default();
    assert!(matches!(f.classify(2, 200), SizeFit::TooSmall));
}

#[test]
fn classify_too_small_by_bytes() {
    let f = LengthFilter::default();
    assert!(matches!(f.classify(10, 50), SizeFit::TooSmall));
}

#[test]
fn classify_too_big_by_lines() {
    let f = LengthFilter::default();
    assert!(matches!(f.classify(30, 200), SizeFit::TooBig));
}

#[test]
fn classify_too_big_by_bytes() {
    let f = LengthFilter::default();
    assert!(matches!(f.classify(10, 700), SizeFit::TooBig));
}

#[test]
fn classify_too_big_takes_precedence_over_too_small() {
    let f = LengthFilter::default();
    assert!(matches!(f.classify(1, 800), SizeFit::TooBig));
}

#[test]
fn strip_ranges_empty_strip_list_returns_full_range() {
    let src = b"hello world";
    let result = strip_ranges(src, 0..src.len(), &[]).unwrap();
    assert_eq!(result, "hello world");
}

#[test]
fn strip_ranges_removes_a_middle_range() {
    let src = b"abcdef";
    let result = strip_ranges(src, 0..6, &[2..4]).unwrap();
    assert_eq!(result, "abef");
}

#[test]
fn strip_ranges_handles_unsorted_input() {
    let src = b"abcdefgh";
    let result = strip_ranges(src, 0..8, &[4..6, 1..2]).unwrap();
    assert_eq!(result, "acdgh");
}

#[test]
fn strip_ranges_clipped_to_outer() {
    let src = b"abcdef";
    let result = strip_ranges(src, 2..5, &[0..3, 4..10]).unwrap();
    assert_eq!(result, "d");
}

#[test]
fn collapse_blank_lines_trims_trailing_whitespace() {
    assert_eq!(collapse_blank_lines("hello   \nworld\n"), "hello\nworld");
}

#[test]
fn collapse_blank_lines_drops_whitespace_only_lines() {
    assert_eq!(collapse_blank_lines("a\n\nb\n   \nc"), "a\nb\nc");
}

#[test]
fn collapse_blank_lines_no_trailing_newline() {
    assert_eq!(collapse_blank_lines("a\nb\nc"), "a\nb\nc");
}

#[test]
fn collapse_blank_lines_empty_input() {
    assert_eq!(collapse_blank_lines(""), "");
}

#[test]
fn dedent_single_line_unchanged() {
    assert_eq!(dedent("func foo()"), "func foo()");
}

#[test]
fn dedent_top_level_function_unchanged() {
    let src = "func foo() {\n    let x = 1\n}";
    assert_eq!(dedent(src), src);
}

#[test]
fn dedent_strips_method_body_indent() {
    let src = "func foo() {\n        let x = 1\n    }";
    let expected = "func foo() {\n    let x = 1\n}";
    assert_eq!(dedent(src), expected);
}

#[test]
fn dedent_strips_deeply_nested_method() {
    let src = "func bar() {\n            let x = 1\n        }";
    let expected = "func bar() {\n    let x = 1\n}";
    assert_eq!(dedent(src), expected);
}

#[test]
fn dedent_tab_indent() {
    let src = "func foo() {\n\t\tlet x = 1\n\t}";
    let expected = "func foo() {\n\tlet x = 1\n}";
    assert_eq!(dedent(src), expected);
}

#[test]
fn dedent_mixed_tab_and_spaces_produces_empty_prefix() {
    let src = "func foo() {\n\tlet x = 1\n  let y = 2";
    assert_eq!(dedent(src), src);
}

#[test]
fn leading_whitespace_basic() {
    assert_eq!(leading_whitespace("    code"), "    ");
    assert_eq!(leading_whitespace("\t\tcode"), "\t\t");
    assert_eq!(leading_whitespace("no_indent"), "");
    assert_eq!(leading_whitespace(""), "");
}

#[test]
fn common_byte_prefix_basic() {
    assert_eq!(common_byte_prefix("    ", "    "), "    ");
    assert_eq!(common_byte_prefix("    ", "  "), "  ");
    assert_eq!(common_byte_prefix("    ", "\t   "), "");
    assert_eq!(common_byte_prefix("    ", ""), "");
}

#[test]
fn detect_indent_unit_spaces_4() {
    let src = b"func foo() {\n    let x = 1\n}\n";
    assert_eq!(detect_indent_unit(src), IndentUnit::Spaces(4));
}

#[test]
fn detect_indent_unit_spaces_2() {
    let src = b"func foo() {\n  let x = 1\n}\n";
    assert_eq!(detect_indent_unit(src), IndentUnit::Spaces(2));
}

#[test]
fn detect_indent_unit_tab() {
    let src = b"func foo() {\n\tlet x = 1\n}\n";
    assert_eq!(detect_indent_unit(src), IndentUnit::Tab);
}

#[test]
fn detect_indent_unit_falls_back_with_no_indented_lines() {
    let src = b"func foo() {}\nlet x = 1\n";
    assert_eq!(detect_indent_unit(src), IndentUnit::Spaces(4));
}

#[test]
fn detect_indent_unit_falls_back_on_invalid_utf8() {
    let src = &[0xFF_u8, 0xFE, 0xFD];
    assert_eq!(detect_indent_unit(src), IndentUnit::Spaces(4));
}

// -- Further cases --

#[test]
fn strip_ranges_rejects_invalid_utf8() {
    let src = &[b'a', 0xFF, b'b'];
    assert_eq!(strip_ranges(src, 0..3, &[]), Err(ExtractError::InvalidUtf8));
    // Stripping the bad byte leaves valid text.
    assert_eq!(strip_ranges(src, 0..3, &[1..2]).unwrap(), "ab");
}

#[test]
fn collapse_blank_lines_handles_crlf() {
    assert_eq!(collapse_blank_lines("a\r\n\r\nb\r\n"), "a\nb");
}

#[test]
fn length_filter_bounds_are_inclusive() {
    let f = LengthFilter::default();
    assert!(matches!(f.classify(4, 100), SizeFit::Fits));
    assert!(matches!(f.classify(25, 600), SizeFit::Fits));
    assert!(matches!(f.classify(3, 100), SizeFit::TooSmall));
    assert!(matches!(f.classify(26, 100), SizeFit::TooBig));
}

#[test]
fn custom_length_filter_classifies_by_its_bounds() {
    let f = LengthFilter { min_lines: 1, max_lines: 2, min_bytes: 1, max_bytes: 10 };
    assert!(matches!(f.classify(1, 5), SizeFit::Fits));
    assert!(matches!(f.classify(3, 5), SizeFit::TooBig));
    assert!(matches!(f.classify(1, 0), SizeFit::TooSmall));
}

#[test]
fn detect_indent_unit_prefers_tab_when_first_indent_is_tab() {
    let src = b"a\n\tb\n    c\n";
    assert_eq!(detect_indent_unit(src), IndentUnit::Tab);
}

#[test]
fn dedent_twice_is_dedent_once() {
    for s in [
        "func foo() {\n        let x = 1\n    }",
        "    func bar() {\n            let y = 2\n        }",
        "a\n\t\tb\n\t\t\tc",
        "one line",
    ] {
        let once = dedent(s);
        assert_eq!(dedent(&once), once);
    }
}

#[test]
fn dedent_is_idempotent_with_trailing_spaces_and_final_newline() {
    for s in [
        "    fn a() {  \n        body  \n    }\n",
        "x\n\t\ty \n\t\t\tz\n",
    ] {
        let once = dedent(s);
        assert!(!once.ends_with('\n'));
        assert_eq!(dedent(&once), once);
    }
    assert_eq!(dedent("    fn a() {  \n        body  \n    }\n"), "fn a() {  \n    body  \n}");
}
