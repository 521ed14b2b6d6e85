use piet_verified::dwrite_text::{
    attribute_utf16_range, end_offset_and_ws_len_utf8, fetch_line_ranges, hit_text_position,
    Utf16Range, DEFAULT_LOCALE,
};
use piet_verified::graphemes::{get_grapheme_boundaries, grapheme_bounds_in};
use piet_verified::line_ranges::{
    build_line_ranges, line_containing, line_number_for_position, line_number_for_utf8_offset,
    line_ranges_from_utf16_ends, pango_line_range, LineRange,
};
use piet_verified::lines::{
    count_trailing_whitespace, count_trailing_ws, hard_line_ranges, is_whitespace, line_breaks,
    trailing_nlf, LineBreaker,
};
use piet_verified::text_units::{count_until_utf16, count_utf16, to_wide_null};

fn lr(start_offset: usize, end_offset: usize, trailing_whitespace: usize) -> LineRange {
    LineRange { start_offset, end_offset, trailing_whitespace }
}

#[test]
fn test_count_trailing_whitespace() {
    assert_eq!(count_trailing_whitespace(" 1 "), 1);
    assert_eq!(count_trailing_whitespace(" 2  "), 2);
    assert_eq!(count_trailing_whitespace(" 3  \n"), 3);
}

#[test]
fn trailing_whitespace_counts_unicode_spaces() {
    // U+3000 IDEOGRAPHIC SPACE and U+00A0 NO-BREAK SPACE are White_Space.
    assert_eq!(count_trailing_whitespace("a\u{a0}\u{3000}"), 2);
    assert_eq!(count_trailing_whitespace(""), 0);
    assert_eq!(count_trailing_whitespace("   "), 3);
    assert!(is_whitespace('\u{2029}'));
    assert!(!is_whitespace('\u{200b}'));
}

#[test]
fn trailing_ascii_whitespace_counts_bytes() {
    assert_eq!(count_trailing_ws("ab \t\r\n"), 4);
    assert_eq!(count_trailing_ws("ab\u{3000}"), 0);
    assert_eq!(count_trailing_ws(""), 0);
}

#[test]
fn trailing_newline() {
    assert_eq!(trailing_nlf("a\n"), Some(1));
    assert_eq!(trailing_nlf("a\r\n"), Some(1));
    assert_eq!(trailing_nlf("a\r"), None);
    assert_eq!(trailing_nlf(""), None);
}

#[test]
fn default_locale() {
    assert_eq!(to_wide_null("en-US").as_slice(), &DEFAULT_LOCALE[..]);
}

#[test]
fn wide_strings_use_surrogate_pairs() {
    assert_eq!(to_wide_null(""), vec![0]);
    assert_eq!(to_wide_null("€"), vec![0x20ac, 0]);
    assert_eq!(to_wide_null("\u{1f600}"), vec![0xd83d, 0xde00, 0]);
    assert_eq!(to_wide_null("a\u{1f600}").len(), count_utf16("a\u{1f600}") + 1);
}

#[test]
fn utf16_counts() {
    assert_eq!(count_utf16(""), 0);
    assert_eq!(count_utf16("abc"), 3);
    assert_eq!(count_utf16("€"), 1);
    assert_eq!(count_utf16("a\u{1f600}b"), 4);
}

#[test]
fn utf16_positions_to_bytes() {
    let s = "a€\u{1f600}b";
    // UTF-16 units: a=0, €=1, the emoji=2..4, b=4
    assert_eq!(count_until_utf16(s, 0), Some(0));
    assert_eq!(count_until_utf16(s, 1), Some(1));
    assert_eq!(count_until_utf16(s, 2), Some(4));
    assert_eq!(count_until_utf16(s, 3), Some(4));
    assert_eq!(count_until_utf16(s, 4), Some(8));
    assert_eq!(count_until_utf16(s, 5), None);
    // counting the prefix before a boundary finds that boundary again
    for i in [0usize, 1, 4, 8] {
        assert_eq!(count_until_utf16(s, count_utf16(&s[..i])), Some(i));
    }
}

#[test]
fn hard_lines() {
    assert_eq!(hard_line_ranges("piet\ntext most\nbest"), vec![(0, 5), (5, 15), (15, 19)]);
    assert_eq!(hard_line_ranges("one line"), vec![(0, 8)]);
    assert_eq!(hard_line_ranges(""), vec![]);
}

/// Drive the line breaker with a fixed-width "font": every byte is 10
/// units wide.
fn break_lines(text: &str, width: usize) -> Vec<(usize, usize)> {
    let mut lb = LineBreaker::new();
    let mut lines = Vec::new();
    for (brk, hard) in line_breaks(text) {
        let ((a, b), (c, d)) = lb.ranges_to_measure(brk);
        let line_wide = (b - a) * 10 > width;
        let tail_wide = (d - c) * 10 > width;
        lines.extend(lb.step(brk, hard, line_wide, tail_wide));
    }
    lines.extend(lb.finish(text.len()));
    lines
}

#[test]
fn line_breaks_of_text() {
    assert_eq!(line_breaks("piet text"), vec![(5, false), (9, false)]);
    assert_eq!(line_breaks("a\nb"), vec![(2, true), (3, false)]);
    assert_eq!(line_breaks("a\n"), vec![(2, true)]);
    assert_eq!(line_breaks(""), vec![]);
}

#[test]
fn line_breaker_wraps_at_width() {
    let text = "piet text most best";
    assert_eq!(break_lines(text, 1000), vec![(0, 19)]);
    assert_eq!(break_lines(text, 100), vec![(0, 10), (10, 19)]);
    assert_eq!(break_lines(text, 50), vec![(0, 5), (5, 10), (10, 15), (15, 19)]);
    // a mandatory break ends every line
    assert_eq!(break_lines("piet\ntext most\nbest\n", 1000), vec![(0, 5), (5, 15), (15, 20)]);
}

#[test]
fn line_breaker_empty_text_has_one_line() {
    assert_eq!(break_lines("", 1000), vec![(0, 0)]);
    assert_eq!(break_lines("", 0), vec![(0, 0)]);
}

#[test]
fn line_breaker_finish_after_every_line_ended() {
    let mut lb = LineBreaker::new();
    assert_eq!(lb.step(3, true, false, false), vec![(0, 3)]);
    assert_eq!(lb.line_start(), 3);
    assert_eq!(lb.prev_break(), 3);
    assert_eq!(lb.finish(3), vec![]);
    let mut lb = LineBreaker::new();
    assert_eq!(lb.step(4, false, false, false), vec![]);
    assert_eq!(lb.prev_break(), 4);
    assert_eq!(lb.finish(6), vec![(0, 6)]);
}

#[test]
fn line_breaker_breaks_long_word_before_hard_break() {
    // "piet\n" is too wide, but there is no earlier break: one line per word
    assert_eq!(break_lines("piet\ntext", 10), vec![(0, 5), (5, 9)]);
}

#[test]
fn line_breaker_soft_break_before_wide_last_line() {
    let lines = break_lines("piet text is the best text!", 50);
    assert_eq!(lines.len(), 6);
    assert_eq!(lines[0].0, 0);
    for w in lines.windows(2) {
        assert_eq!(w[0].1, w[1].0);
    }
    assert_eq!(lines.last().unwrap().1, 27);
}

#[test]
fn utf16_line_ends_to_byte_ranges() {
    let text = "ab€ cd";
    assert_eq!(
        line_ranges_from_utf16_ends(text, &[4, 6]),
        Some(vec![lr(0, 6, 1), lr(6, 8, 0)])
    );
    // an end that is no boundary after the previous one
    assert_eq!(line_ranges_from_utf16_ends(text, &[4, 4]), None);
    assert_eq!(line_ranges_from_utf16_ends(text, &[7]), None);
    // a zero end after a non-zero one would slice backwards
    assert_eq!(line_ranges_from_utf16_ends(text, &[2, 0]), None);
    assert_eq!(line_ranges_from_utf16_ends(text, &[0, 2]), Some(vec![lr(0, 0, 0), lr(0, 2, 0)]));
    // a surrogate pair is one character of two code units
    assert_eq!(line_ranges_from_utf16_ends("\u{1f600}x", &[1]), None);
    assert_eq!(line_ranges_from_utf16_ends("\u{1f600}x", &[2, 3]), Some(vec![lr(0, 4, 0), lr(4, 5, 0)]));
}

#[test]
fn layout_lines_get_final_empty_line() {
    assert_eq!(build_line_ranges("", &[]), Some(vec![lr(0, 0, 0)]));
    assert_eq!(build_line_ranges("ab\n", &[3]), Some(vec![lr(0, 3, 1), lr(3, 3, 0)]));
    assert_eq!(build_line_ranges("ab\n", &[]), None);
    assert_eq!(build_line_ranges("ab", &[2]), Some(vec![lr(0, 2, 0)]));
}

#[test]
fn pango_lines_take_their_line_break() {
    let text = "ab \r\ncd\re";
    assert_eq!(pango_line_range(text, 0, 3), Some(lr(0, 5, 3)));
    assert_eq!(pango_line_range(text, 5, 2), Some(lr(5, 8, 1)));
    assert_eq!(pango_line_range(text, 8, 1), Some(lr(8, 9, 0)));
    assert_eq!(pango_line_range(text, 8, 2), None);
    // whitespace is counted in bytes
    assert_eq!(pango_line_range("x\u{3000}", 0, 4), Some(lr(0, 4, 3)));
    // not a character boundary
    assert_eq!(pango_line_range("€", 0, 1), None);
}

#[test]
fn line_lookup() {
    let lines = [lr(0, 5, 1), lr(5, 10, 0), lr(10, 10, 0)];
    assert_eq!(line_number_for_position(&lines, 0), 0);
    assert_eq!(line_number_for_position(&lines, 4), 0);
    assert_eq!(line_number_for_position(&lines, 5), 1);
    assert_eq!(line_number_for_position(&lines, 10), 2);
    assert_eq!(line_number_for_position(&lines, 99), 2);
    assert_eq!(line_number_for_utf8_offset(&lines, 7), 1);
    assert_eq!(line_number_for_utf8_offset(&[], 7), 0);
    assert_eq!(line_number_for_utf8_offset(&[lr(3, 5, 0)], 1), 0);
    assert_eq!(line_containing(&lines, 7), 1);
    assert_eq!(line_containing(&lines, 10), 2);
    assert_eq!(line_containing(&lines, 0), 0);
}

#[test]
fn attribute_ranges_in_utf16() {
    let text = "a€\u{1f600}b";
    assert_eq!(attribute_utf16_range(text, None), Some(Utf16Range::new(0, 5)));
    assert_eq!(attribute_utf16_range(text, Some((1, 4))), Some(Utf16Range::new(1, 1)));
    assert_eq!(attribute_utf16_range(text, Some((4, 8))), Some(Utf16Range::new(2, 2)));
    // an attribute running to the end of the text covers the whole text's length
    assert_eq!(attribute_utf16_range(text, Some((4, 9))), Some(Utf16Range::new(2, 5)));
    assert_eq!(attribute_utf16_range(text, Some((2, 4))), None);
    assert_eq!(attribute_utf16_range(text, Some((4, 1))), None);
}

#[test]
fn line_ends_in_bytes() {
    assert_eq!(end_offset_and_ws_len_utf8("piet text", 5, 1), Some((4, 1)));
    assert_eq!(end_offset_and_ws_len_utf8("ab", 2, 0), Some((2, 0)));
    assert_eq!(end_offset_and_ws_len_utf8("ab", 0, 0), Some((0, 0)));
    assert_eq!(end_offset_and_ws_len_utf8("ab", 1, 2), None);
    assert_eq!(end_offset_and_ws_len_utf8("ab", 3, 0), None);
}

#[test]
#[allow(deprecated)]
fn test_fetch_line_metrics() {
    let input = "piet text most best";
    let small = [(5, 1), (5, 1), (5, 1), (4, 0)];
    assert_eq!(
        fetch_line_ranges(input, &small),
        Some(vec![lr(0, 5, 1), lr(5, 10, 1), lr(10, 15, 1), lr(15, 19, 0)])
    );
    let medium = [(10, 1), (9, 0)];
    assert_eq!(fetch_line_ranges(input, &medium), Some(vec![lr(0, 10, 1), lr(10, 19, 0)]));
    let large = [(19, 0)];
    assert_eq!(fetch_line_ranges(input, &large), Some(vec![lr(0, 19, 0)]));
    assert_eq!(fetch_line_ranges(input, &[(20, 0)]), None);
}

#[test]
fn test_string_range() {
    let input = "€tf-16";
    let lines = fetch_line_ranges(input, &[(6, 0)]).unwrap();
    assert_eq!(lines[0].end_offset, 8);
}

#[test]
fn dwrite_hits_to_bytes() {
    let text = "a€b";
    assert_eq!(hit_text_position(text, 1, 1, false), 1);
    assert_eq!(hit_text_position(text, 1, 1, true), 4);
    assert_eq!(hit_text_position(text, 2, 1, true), 5);
}

#[test]
fn grapheme_test_grapheme_boundaries() {
    let text = "piet";
    assert_eq!(get_grapheme_boundaries(text, 3).unwrap().0, 3);
    assert_eq!(get_grapheme_boundaries(text, 3).unwrap().1, 4);
    assert_eq!(get_grapheme_boundaries(text, 4), None);
}

#[test]
fn grapheme_clusters_span_combining_marks() {
    let text = "e\u{301}x";
    assert_eq!(get_grapheme_boundaries(text, 0), Some((0, 3)));
    assert_eq!(get_grapheme_boundaries(text, 1), Some((3, 4)));
    assert_eq!(get_grapheme_boundaries("", 0), None);
    assert_eq!(grapheme_bounds_in(&[0, 3], 4, 1), Some((3, 4)));
}
