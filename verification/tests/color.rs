use piet_verified::color::{closest_pango_weight, pango_channel, pango_color, skia_argb, svg_color, PangoWeight};
use piet_verified::svg_id::{Id, IdCounter};

#[test]
fn skia_colors_put_alpha_first() {
    assert_eq!(skia_argb(0x1122_3344), 0x4411_2233);
    assert_eq!(skia_argb(0xff00_00ff), 0xffff_0000);
    assert_eq!(skia_argb(0), 0);
}

#[test]
fn pango_channels_span_16_bits() {
    assert_eq!(pango_channel(0), 0);
    assert_eq!(pango_channel(1), 257);
    assert_eq!(pango_channel(255), 65535);
    assert_eq!(pango_color(0x0180_ff00), (257, 0x8080, 0xffff));
}

#[test]
fn svg_colors_are_six_hex_digits() {
    assert_eq!(svg_color(0x1234_56ff), "#123456");
    assert_eq!(svg_color(0xabcd_ef00), "#abcdef");
    assert_eq!(svg_color(0x0000_0180), "#000001");
    assert_eq!(svg_color(0xffff_ffff), "#ffffff");
}

#[test]
fn pango_weights_pick_the_closest() {
    assert_eq!(closest_pango_weight(400), PangoWeight::Normal);
    assert_eq!(closest_pango_weight(700), PangoWeight::Bold);
    assert_eq!(closest_pango_weight(1), PangoWeight::Thin);
    assert_eq!(closest_pango_weight(360), PangoWeight::Semilight);
    // a tie goes to the lighter weight
    assert_eq!(closest_pango_weight(450), PangoWeight::Normal);
    assert_eq!(closest_pango_weight(950), PangoWeight::Heavy);
    assert_eq!(closest_pango_weight(1000), PangoWeight::Ultraheavy);
    // nothing within reach: the first entry
    assert_eq!(closest_pango_weight(5000), PangoWeight::Thin);
}

#[test]
fn ids_are_letters() {
    assert_eq!(Id(0).to_string(), "a");
    assert_eq!(Id(25).to_string(), "z");
    assert_eq!(Id(26).to_string(), "A");
    assert_eq!(Id(51).to_string(), "Z");
    assert_eq!(Id(52).to_string(), "ab");
    assert_eq!(Id(53).to_string(), "bb");
    assert_eq!(Id(52 * 52).to_string(), "aab");
}

#[test]
fn counter_hands_out_distinct_names() {
    let mut ids = IdCounter::new();
    let mut names = std::collections::HashSet::new();
    for _ in 0..3000 {
        let id = ids.new_id();
        assert!(names.insert(id.to_string()));
    }
    assert_eq!(ids.next_id, 3000);
}
