use piet_verified::dwrite_text::Utf16Range;
use piet_verified::platform::{
    fill_mode, make_opentype_tag, FillRule, PfText, SkiaImage, SkiaSimpleText, SkiaText,
    TextureMode,
};

#[test]
fn texture_modes() {
    assert_eq!(TextureMode::Target.usage(), 0);
    assert_eq!(TextureMode::Read.usage(), 3);
    assert_eq!(TextureMode::Target.bind_flags(), 0x28);
    assert_eq!(TextureMode::Read.bind_flags(), 0);
    assert_eq!(TextureMode::Target.cpu_access_flags(), 0);
    assert_eq!(TextureMode::Read.cpu_access_flags(), 0x20000);
}

#[test]
fn fill_rules() {
    assert_eq!(fill_mode(FillRule::EvenOdd), 0);
    assert_eq!(fill_mode(FillRule::NonZero), 1);
}

#[test]
fn opentype_tags() {
    assert_eq!(make_opentype_tag("wght"), 0x7767_6874);
    assert_eq!(make_opentype_tag("slnt"), 0x736c_6e74);
}

#[test]
fn utf16_ranges() {
    let r = Utf16Range::new(3, 4);
    assert_eq!((r.start, r.len), (3, 4));
}

#[test]
fn stateless_types() {
    let _ = (PfText, SkiaImage, SkiaSimpleText);
    let _text: SkiaText = SkiaText::new();
}
