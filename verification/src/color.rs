//! Colors and font weights in the forms that the back-ends' libraries take
//! them. Colors are piet's packed RGBA: red in the upper 8 bits, alpha in
//! the lower 8.

use vstd::prelude::*;
use vstd::string::*;

verus! {

/// Red, green, blue and alpha of a packed RGBA color.
pub open spec fn rgba_channels(rgba: u32) -> (u8, u8, u8, u8) {
    ((rgba >> 24) as u8, ((rgba >> 16) & 255) as u8, ((rgba >> 8) & 255) as u8, (rgba & 255) as u8)
}

/// The same color packed as ARGB (alpha in the upper 8 bits), the layout of
/// skia's colors.
pub open spec fn argb_of(rgba: u32) -> int {
    (rgba % 0x100) * 0x100_0000 + rgba / 0x100
}

/// Convert a packed RGBA color to ARGB by moving alpha to the top.
pub fn skia_argb(rgba: u32) -> (argb: u32)
    ensures
        argb == argb_of(rgba),
        // alpha moves to the top byte; red, green and blue follow it in order
        argb >> 24 == rgba & 0xff,
        argb & 0xff_ffff == rgba >> 8,
{
    assert(((rgba >> 8) | ((rgba & 255) << 24)) == (rgba % 0x100) * 0x100_0000 + rgba / 0x100
        && ((rgba >> 8) | ((rgba & 255) << 24)) >> 24 == rgba & 0xff && ((rgba >> 8) | ((rgba
        & 255) << 24)) & 0xff_ffff == rgba >> 8) by (bit_vector);
    (rgba >> 8) | ((rgba & 255) << 24)
}

/// A color channel widened to 16 bits, as pango takes colors: `c * 257`,
/// so that 0 stays 0 and 255 becomes 65535.
pub fn pango_channel(c: u8) -> (r: u16)
    ensures
        r == c * 257,
{
    (c as u16 * 256) + (c as u16)
}

/// The red, green and blue channels of a packed RGBA color, each widened
/// to 16 bits for pango.
pub fn pango_color(rgba: u32) -> (r: (u16, u16, u16))
    ensures
        r.0 == rgba_channels(rgba).0 * 257,
        r.1 == rgba_channels(rgba).1 * 257,
        r.2 == rgba_channels(rgba).2 * 257,
        // red is the top byte, then green, then blue; alpha is dropped
        r.0 == (rgba >> 24) * 257,
        r.1 == ((rgba >> 16) & 0xff) * 257,
        r.2 == ((rgba >> 8) & 0xff) * 257,
{
    assert(((rgba >> 24) as u8) as u32 == rgba >> 24 && (((rgba >> 16) & 255) as u8) as u32 == (
    rgba >> 16) & 0xff && (((rgba >> 8) & 255) as u8) as u32 == (rgba >> 8) & 0xff)
        by (bit_vector);
    let red = (rgba >> 24) as u8;
    let green = ((rgba >> 16) & 255) as u8;
    let blue = ((rgba >> 8) & 255) as u8;
    (pango_channel(red), pango_channel(green), pango_channel(blue))
}

/// The ASCII hex digit of a value below 16, in lower case.
pub open spec fn hex_digit(v: int) -> char {
    if v < 10 {
        ((v + 0x30) as u32) as char
    } else {
        ((v - 10 + 0x61) as u32) as char
    }
}

/// `#` and the red, green and blue channels of a packed RGBA color as six
/// lower-case hex digits: the form of colors in SVG.
pub open spec fn svg_color_spec(rgba: u32) -> Seq<char> {
    let rgb = (rgba >> 8) as int;
    seq![
        '#',
        hex_digit((rgb / 0x10_0000) % 16),
        hex_digit((rgb / 0x1_0000) % 16),
        hex_digit((rgb / 0x1000) % 16),
        hex_digit((rgb / 0x100) % 16),
        hex_digit((rgb / 0x10) % 16),
        hex_digit(rgb % 16),
    ]
}

/// The value of a lower-case hex digit (-1 for any other character).
pub open spec fn hex_value(c: char) -> int {
    let v = c as u32 as int;
    if 0x30 <= v <= 0x39 {
        v - 0x30
    } else if 0x61 <= v <= 0x66 {
        v - 0x61 + 10
    } else {
        -1
    }
}

proof fn lemma_svg_digits_read_back(rgba: u32)
    ensures
        forall|k: int| 1 <= k < 7 ==> 0 <= #[trigger] hex_value(svg_color_spec(rgba)[k]) < 16,
        hex_value(svg_color_spec(rgba)[1]) * 0x10_0000 + hex_value(svg_color_spec(rgba)[2])
            * 0x1_0000 + hex_value(svg_color_spec(rgba)[3]) * 0x1000 + hex_value(
            svg_color_spec(rgba)[4],
        ) * 0x100 + hex_value(svg_color_spec(rgba)[5]) * 0x10 + hex_value(svg_color_spec(rgba)[6])
            == rgba >> 8,
{
    let rgb = rgba >> 8;
    assert(rgb / 0x10_0000 % 16 * 0x10_0000 + rgb / 0x1_0000 % 16 * 0x1_0000 + rgb / 0x1000 % 16
        * 0x1000 + rgb / 0x100 % 16 * 0x100 + rgb / 0x10 % 16 * 0x10 + rgb % 16 == rgb)
        by (bit_vector)
        requires
            rgb == rgba >> 8,
    ;
    assert forall|v: int| 0 <= v < 16 implies #[trigger] hex_value(hex_digit(v)) == v by {
        if v < 10 {
            assert(((v + 0x30) as u32) as char as u32 == (v + 0x30) as u32);
        } else {
            assert(((v - 10 + 0x61) as u32) as char as u32 == (v - 10 + 0x61) as u32);
        }
    }
    let d = svg_color_spec(rgba);
    assert(d[1] == hex_digit((rgb as int / 0x10_0000) % 16));
    assert(d[6] == hex_digit(rgb as int % 16));
}

fn hex_digit_str(v: u32) -> (s: &'static str)
    requires
        v < 16,
    ensures
        s@ == seq![hex_digit(v as int)],
{
    let s = match v {
        0 => "0",
        1 => "1",
        2 => "2",
        3 => "3",
        4 => "4",
        5 => "5",
        6 => "6",
        7 => "7",
        8 => "8",
        9 => "9",
        10 => "a",
        11 => "b",
        12 => "c",
        13 => "d",
        14 => "e",
        _ => "f",
    };
    proof {
        reveal_strlit("0");
        reveal_strlit("1");
        reveal_strlit("2");
        reveal_strlit("3");
        reveal_strlit("4");
        reveal_strlit("5");
        reveal_strlit("6");
        reveal_strlit("7");
        reveal_strlit("8");
        reveal_strlit("9");
        reveal_strlit("a");
        reveal_strlit("b");
        reveal_strlit("c");
        reveal_strlit("d");
        reveal_strlit("e");
        reveal_strlit("f");
    }
    s
}

/// The SVG form of a packed RGBA color: `#rrggbb` in lower-case hex.
pub fn svg_color(rgba: u32) -> (s: String)
    ensures
        s@ == svg_color_spec(rgba),
        // `#` and six hex digits that read back as the color without alpha
        s@.len() == 7,
        s@[0] == '#',
        forall|k: int| 1 <= k < 7 ==> 0 <= #[trigger] hex_value(s@[k]) < 16,
        hex_value(s@[1]) * 0x10_0000 + hex_value(s@[2]) * 0x1_0000 + hex_value(s@[3]) * 0x1000
            + hex_value(s@[4]) * 0x100 + hex_value(s@[5]) * 0x10 + hex_value(s@[6]) == rgba >> 8,
{
    proof {
        lemma_svg_digits_read_back(rgba);
    }
    let rgb = rgba >> 8;
    let mut s = String::from_str("#");
    proof {
        reveal_strlit("#");
        assert(svg_color_spec(rgba).take(1) =~= seq!['#']);
    }
    let mut shift: u32 = 24;
    let ghost full = svg_color_spec(rgba);
    while shift > 0
        invariant
            shift % 4 == 0,
            shift <= 24,
            rgb == rgba >> 8,
            full == svg_color_spec(rgba),
            s@ == full.take(1 + (24 - shift) / 4),
        decreases shift,
    {
        shift = shift - 4;
        let v = (rgb >> shift) & 15;
        proof {
            let k = (24 - shift) / 4;
            lemma_hex_digit_of(rgb, shift);
            assert(full[k] == hex_digit((rgb as int / pow16(shift as int / 4)) % 16));
            assert(full.take(k + 1) =~= full.take(k).push(full[k]));
        }
        s.append(hex_digit_str(v));
    }
    proof {
        assert(full.take(7) =~= full);
    }
    s
}

/// Powers of 16 up to 16^5.
pub open spec fn pow16(e: int) -> int {
    if e <= 0 {
        1
    } else if e == 1 {
        0x10
    } else if e == 2 {
        0x100
    } else if e == 3 {
        0x1000
    } else if e == 4 {
        0x1_0000
    } else {
        0x10_0000
    }
}

proof fn lemma_hex_digit_of(rgb: u32, shift: u32)
    requires
        shift % 4 == 0,
        shift < 24,
    ensures
        ((rgb >> shift) & 15) == (rgb as int / pow16(shift as int / 4)) % 16,
{
    if shift == 0 {
        assert((rgb >> 0u32) & 15 == rgb % 16) by (bit_vector);
    } else if shift == 4 {
        assert((rgb >> 4u32) & 15 == (rgb / 0x10) % 16) by (bit_vector);
    } else if shift == 8 {
        assert((rgb >> 8u32) & 15 == (rgb / 0x100) % 16) by (bit_vector);
    } else if shift == 12 {
        assert((rgb >> 12u32) & 15 == (rgb / 0x1000) % 16) by (bit_vector);
    } else if shift == 16 {
        assert((rgb >> 16u32) & 15 == (rgb / 0x1_0000) % 16) by (bit_vector);
    } else {
        assert((rgb >> 20u32) & 15 == (rgb / 0x10_0000) % 16) by (bit_vector);
    }
}

/// The weights that pango names, from the lightest.
#[derive(Clone, Copy, Debug, PartialEq, Eq, Structural)]
pub enum PangoWeight {
    Thin,
    Ultralight,
    Light,
    Semilight,
    Book,
    Normal,
    Medium,
    Semibold,
    Bold,
    Ultrabold,
    Heavy,
    Ultraheavy,
}

/// The CSS weight value of each weight that pango names (pango's
/// `PangoWeight` values).
pub open spec fn pango_weight_value(p: PangoWeight) -> int {
    match p {
        PangoWeight::Thin => 100,
        PangoWeight::Ultralight => 200,
        PangoWeight::Light => 300,
        PangoWeight::Semilight => 350,
        PangoWeight::Book => 380,
        PangoWeight::Normal => 400,
        PangoWeight::Medium => 500,
        PangoWeight::Semibold => 600,
        PangoWeight::Bold => 700,
        PangoWeight::Ultrabold => 800,
        PangoWeight::Heavy => 900,
        PangoWeight::Ultraheavy => 1000,
    }
}

/// Distance between the CSS weight `w` and the value of the named weight `p`.
pub open spec fn value_distance(p: PangoWeight, w: int) -> int {
    let d = pango_weight_value(p) - w;
    if d < 0 {
        -d
    } else {
        d
    }
}

/// The weights that pango names, in order, with their CSS weight values.
pub open spec fn pango_weight_table(i: int) -> (int, PangoWeight) {
    if i == 0 {
        (100, PangoWeight::Thin)
    } else if i == 1 {
        (200, PangoWeight::Ultralight)
    } else if i == 2 {
        (300, PangoWeight::Light)
    } else if i == 3 {
        (350, PangoWeight::Semilight)
    } else if i == 4 {
        (380, PangoWeight::Book)
    } else if i == 5 {
        (400, PangoWeight::Normal)
    } else if i == 6 {
        (500, PangoWeight::Medium)
    } else if i == 7 {
        (600, PangoWeight::Semibold)
    } else if i == 8 {
        (700, PangoWeight::Bold)
    } else if i == 9 {
        (800, PangoWeight::Ultrabold)
    } else if i == 10 {
        (900, PangoWeight::Heavy)
    } else {
        (1000, PangoWeight::Ultraheavy)
    }
}

fn pango_weight_entry(i: usize) -> (r: (i32, PangoWeight))
    requires
        i < 12,
    ensures
        r.0 == pango_weight_table(i as int).0,
        r.1 == pango_weight_table(i as int).1,
{
    match i {
        0 => (100, PangoWeight::Thin),
        1 => (200, PangoWeight::Ultralight),
        2 => (300, PangoWeight::Light),
        3 => (350, PangoWeight::Semilight),
        4 => (380, PangoWeight::Book),
        5 => (400, PangoWeight::Normal),
        6 => (500, PangoWeight::Medium),
        7 => (600, PangoWeight::Semibold),
        8 => (700, PangoWeight::Bold),
        9 => (800, PangoWeight::Ultrabold),
        10 => (900, PangoWeight::Heavy),
        _ => (1000, PangoWeight::Ultraheavy),
    }
}

/// How far the `i`th named weight is from the weight `w`.
pub open spec fn weight_distance(i: int, w: int) -> int {
    let d = pango_weight_table(i).0 - w;
    if d < 0 {
        -d
    } else {
        d
    }
}

/// The index in the table of the named weight closest to `w`: the first of
/// the closest ones that are nearer than 2000, or the first entry when none
/// is.
pub open spec fn closest_weight_index(w: int, r: int) -> bool {
    &&& 0 <= r < 12
    &&& (exists|j: int| 0 <= j < 12 && weight_distance(j, w) < 2000) ==> {
        &&& weight_distance(r, w) < 2000
        &&& forall|j: int| 0 <= j < r ==> weight_distance(j, w) > weight_distance(r, w)
        &&& forall|j: int| r < j < 12 ==> weight_distance(j, w) >= weight_distance(r, w)
    }
    &&& !(exists|j: int| 0 <= j < 12 && weight_distance(j, w) < 2000) ==> r == 0
}

/// The pango weight closest to the CSS weight `raw`.
pub fn closest_pango_weight(raw: u16) -> (r: PangoWeight)
    ensures
        exists|i: int| closest_weight_index(raw as int, i) && r == pango_weight_table(i).1,
        forall|p: PangoWeight| raw as int == pango_weight_value(p) ==> r == p,
        raw < 3000 ==> forall|p: PangoWeight| value_distance(r, raw as int) <= value_distance(p, raw as int),
        raw < 3000 ==> forall|p: PangoWeight|
            value_distance(p, raw as int) == value_distance(r, raw as int) ==> pango_weight_value(r)
                <= pango_weight_value(p),
        raw >= 3000 ==> r == PangoWeight::Thin,
{
    let weight = raw as i32;
    let mut closest_index: usize = 0;
    let mut closest_distance: i32 = 2000;
    let mut i: usize = 0;
    while i < 12
        invariant
            i <= 12,
            weight == raw,
            closest_index < 12,
            closest_index < i || (i == 0 && closest_index == 0),
            closest_distance <= 2000,
            closest_distance < 2000 ==> closest_distance == weight_distance(
                closest_index as int,
                raw as int,
            ),
            closest_distance == 2000 ==> closest_index == 0,
            forall|j: int| 0 <= j < i ==> weight_distance(j, raw as int) >= closest_distance,
            forall|j: int|
                0 <= j < closest_index ==> weight_distance(j, raw as int) > closest_distance,
        decreases 12 - i,
    {
        let (value, _) = pango_weight_entry(i);
        let d = value - weight;
        let distance = if d < 0 {
            -d
        } else {
            d
        };
        if distance < closest_distance {
            closest_distance = distance;
            closest_index = i;
        }
        i = i + 1;
    }
    let (_, w) = pango_weight_entry(closest_index);
    proof {
        if exists|j: int| 0 <= j < 12 && weight_distance(j, raw as int) < 2000 {
            assert(closest_distance < 2000);
        }
        assert(closest_weight_index(raw as int, closest_index as int));
        lemma_weight_table_values();
        let ci = closest_index as int;
        assert forall|p: PangoWeight| raw as int == pango_weight_value(p) implies w == p by {
            let k = pango_weight_index(p);
            lemma_named_weight_maps_to_itself(k, ci);
        }
        if raw < 3000 {
            assert(weight_distance(11, raw as int) < 2000);
            assert forall|p: PangoWeight| value_distance(w, raw as int) <= value_distance(
                p,
                raw as int,
            ) by {
                let k = pango_weight_index(p);
                assert(weight_distance(k, raw as int) == value_distance(p, raw as int));
            }
            assert forall|p: PangoWeight|
                value_distance(p, raw as int) == value_distance(w, raw as int) implies pango_weight_value(w)
                <= pango_weight_value(p) by {
                let k = pango_weight_index(p);
                assert(weight_distance(k, raw as int) == value_distance(p, raw as int));
                if k < ci {
                    assert(weight_distance(k, raw as int) > weight_distance(ci, raw as int));
                }
            }
        } else {
            assert forall|j: int| 0 <= j < 12 implies !(weight_distance(j, raw as int) < 2000) by {}
        }
    }
    w
}

/// The position of a named weight in the table.
pub open spec fn pango_weight_index(p: PangoWeight) -> int {
    match p {
        PangoWeight::Thin => 0,
        PangoWeight::Ultralight => 1,
        PangoWeight::Light => 2,
        PangoWeight::Semilight => 3,
        PangoWeight::Book => 4,
        PangoWeight::Normal => 5,
        PangoWeight::Medium => 6,
        PangoWeight::Semibold => 7,
        PangoWeight::Bold => 8,
        PangoWeight::Ultrabold => 9,
        PangoWeight::Heavy => 10,
        PangoWeight::Ultraheavy => 11,
    }
}

/// The table pairs each named weight with its own value, in increasing
/// order of value.
pub proof fn lemma_weight_table_values()
    ensures
        forall|i: int| 0 <= i < 12 ==> #[trigger] pango_weight_value(pango_weight_table(i).1)
            == pango_weight_table(i).0,
        forall|p: PangoWeight|
            0 <= #[trigger] pango_weight_index(p) < 12 && pango_weight_table(pango_weight_index(p)).1
                == p,
        forall|i: int, j: int|
            0 <= i < j < 12 ==> #[trigger] pango_weight_table(i).0 < #[trigger] pango_weight_table(j).0,
{
}


/// There is only one closest named weight in the sense of
/// `closest_weight_index`.
pub proof fn lemma_closest_weight_unique(w: int, r1: int, r2: int)
    requires
        closest_weight_index(w, r1),
        closest_weight_index(w, r2),
    ensures
        r1 == r2,
{
}

/// A weight that pango names maps to that name.
pub proof fn lemma_named_weight_maps_to_itself(i: int, r: int)
    requires
        0 <= i < 12,
        closest_weight_index(pango_weight_table(i).0, r),
    ensures
        r == i,
        pango_weight_table(r).1 == pango_weight_table(i).1,
{
    let w = pango_weight_table(i).0;
    assert(weight_distance(i, w) == 0);
    assert(forall|j: int| 0 <= j < 12 && j != i ==> weight_distance(j, w) > 0);
    assert(closest_weight_index(w, i));
    lemma_closest_weight_unique(w, r, i);
}

} // verus!
