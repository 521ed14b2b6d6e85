use piet_verified::font_spans::{utf16_range_of, FontResolution, Span};

/// Resolve fonts up to `end`, returning each run as (UTF-16 start, UTF-16
/// length, active weight).
fn resolve(
    res: &mut FontResolution<&'static str, u32, u16, bool>,
    text: &str,
    end: usize,
    runs: &mut Vec<(usize, usize, Option<u16>)>,
) {
    while let Some((run_end, start16, len16)) = res.next_run(text, end) {
        runs.push((start16, len16, res.attrs.weight.as_ref().map(|s| s.payload)));
        res.finish_run(text, run_end, len16);
    }
}

#[test]
fn spans() {
    let s = Span::new(7u8, 2..5);
    assert_eq!(s.range_end(), 5);
    assert_eq!(s.payload, 7);
}

#[test]
fn fonts_resolve_at_attribute_ends() {
    let text = "ab€cd\u{1f600}e";
    let mut res: FontResolution<&'static str, u32, u16, bool> = FontResolution::new();
    let mut runs = Vec::new();
    // weight 700 on bytes 1..5 ("b€"), size on 2..11
    resolve(&mut res, text, 1, &mut runs);
    res.attrs.weight = Some(Span::new(700, 1..5));
    resolve(&mut res, text, 2, &mut runs);
    res.attrs.size = Some(Span::new(12, 2..11));
    assert!(res.fits(text));
    resolve(&mut res, text, text.len(), &mut runs);
    assert_eq!(
        runs,
        vec![(0, 1, None), (1, 1, Some(700)), (2, 1, Some(700)), (3, 4, None), (7, 1, None)]
    );
    assert_eq!(res.last_resolved_pos, text.len());
    assert_eq!(res.last_resolved_utf16, 8);
    assert!(res.attrs.weight.is_none() && res.attrs.size.is_none());
}

#[test]
fn states_that_do_not_fit() {
    let text = "a€";
    let mut res: FontResolution<(), (), (), ()> = FontResolution::new();
    assert!(res.fits(text));
    res.attrs.style = Some(Span::new((), 0..2));
    assert!(!res.fits(text));
    res.attrs.style = Some(Span::new((), 0..0));
    assert!(!res.fits(text));
    res.attrs.style = Some(Span::new((), 0..4));
    assert!(res.fits(text));
}

#[test]
fn utf16_ranges_of_bytes() {
    let text = "a€\u{1f600}b";
    assert_eq!(utf16_range_of(text, 1, 8), Some((1, 3)));
    assert_eq!(utf16_range_of(text, 0, 0), Some((0, 0)));
    assert_eq!(utf16_range_of(text, 8, 9), Some((4, 1)));
    assert_eq!(utf16_range_of(text, 2, 8), None);
    assert_eq!(utf16_range_of(text, 4, 1), None);
}
