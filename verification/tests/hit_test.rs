use piet_verified::dwrite_text::hit_text_position;
use piet_verified::hit_test::{
    coretext_hit_offset, dwrite_text_position, pango_hit_offset, pango_text_position,
    utf16_offset_in_line,
};
use piet_verified::line_ranges::LineRange;

fn lr(start_offset: usize, end_offset: usize) -> LineRange {
    LineRange { start_offset, end_offset, trailing_whitespace: 0 }
}

#[test]
fn pango_hits_inside_a_line() {
    // line "tßßy\n" starting at byte 10 of the text
    let line = "tßßy\n";
    assert_eq!(pango_hit_offset(10, line, true, 11, 0, false, false), Some(11));
    // trailing: one more character (ß is two bytes)
    assert_eq!(pango_hit_offset(10, line, true, 11, 1, false, false), Some(13));
    assert_eq!(pango_hit_offset(10, line, true, 11, 9, false, false), Some(17));
    // not a character boundary
    assert_eq!(pango_hit_offset(10, line, true, 12, 0, false, false), None);
    assert_eq!(pango_hit_offset(10, line, true, 5, 0, false, false), None);
}

#[test]
fn pango_hits_outside_a_line() {
    assert_eq!(pango_hit_offset(10, "ab\r\n", false, 0, 0, true, true), Some(12));
    assert_eq!(pango_hit_offset(10, "ab\n", false, 0, 0, false, false), Some(12));
    assert_eq!(pango_hit_offset(10, "ab", false, 0, 0, false, false), Some(12));
    assert_eq!(pango_hit_offset(10, "ab", false, 0, 0, true, false), Some(10));
}

#[test]
fn coretext_hits() {
    // the line "a€b\n" holds bytes 4..10 of a 12-byte text, from UTF-16 index 4
    let line = "a€b\n";
    let l = lr(4, 10);
    assert_eq!(coretext_hit_offset(12, l, line, -1, 4), Some(12));
    assert_eq!(coretext_hit_offset(12, l, line, 4, 4), Some(4));
    assert_eq!(coretext_hit_offset(12, l, line, 5, 4), Some(5));
    assert_eq!(coretext_hit_offset(12, l, line, 6, 4), Some(8));
    // at the very end of the line: before its newline
    assert_eq!(coretext_hit_offset(12, l, line, 8, 4), Some(9));
    assert_eq!(coretext_hit_offset(12, l, line, -2, 4), None);
}

#[test]
fn utf16_offsets_in_lines() {
    let l = lr(4, 10);
    assert_eq!(utf16_offset_in_line(l, "a€b\n", 8), Some(2));
    assert_eq!(utf16_offset_in_line(l, "a€b\n", 6), None);
    assert_eq!(utf16_offset_in_line(l, "a€b\n", 3), None);
}

#[test]
fn dwrite_positions() {
    let text = "ab\n€d";
    let lines = [lr(0, 3), lr(3, 7)];
    assert_eq!(dwrite_text_position(text, &lines, 0), Some((0, 0)));
    assert_eq!(dwrite_text_position(text, &lines, 6), Some((4, 1)));
    assert_eq!(dwrite_text_position(text, &lines, 99), Some((5, 1)));
    assert_eq!(dwrite_text_position("", &[], 3), None);
}

#[test]
fn dwrite_positions_round_trip() {
    let text = "a€\u{1f600}b\ncd";
    let lines = [lr(0, 10), lr(10, 12)];
    for i in (0..text.len()).filter(|i| text.is_char_boundary(*i)) {
        let (idx16, _) = dwrite_text_position(text, &lines, i).unwrap();
        assert_eq!(hit_text_position(text, idx16, 1, false), i);
    }
}

#[test]
fn pango_positions() {
    let text = "ab\ncd";
    let lines = [lr(0, 3), lr(3, 5)];
    assert_eq!(pango_text_position(text, &lines, 1, false), (0, 1, false));
    assert_eq!(pango_text_position(text, &lines, 3, true), (1, 3, false));
    // the end of the text is in no line: the last line
    assert_eq!(pango_text_position(text, &lines, 9, false), (1, 5, false));
    assert_eq!(pango_text_position(text, &lines, 5, true), (1, 4, true));
    assert_eq!(pango_text_position("", &[lr(0, 0)], 0, true), (0, 0, true));
}
