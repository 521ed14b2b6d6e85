# piet_verified

The integer logic of the piet 2D graphics back-ends, written in Verus with
its behaviour stated in contracts and proved.

- `src/` is the verified library:
  - `text_units`: counting text in UTF-8 bytes and UTF-16 code units, and
    finding the byte at a UTF-16 position; the wide strings of Windows APIs.
  - `lines`: line break opportunities, the width-driven line breaker, and
    trailing whitespace.
  - `line_ranges`: the byte ranges of a layout's lines from the line ends
    that CoreText or pango report, and finding the line of a position.
  - `dwrite_text`: the same for DirectWrite, and the UTF-16 ranges of text
    attributes.
  - `hit_test`: the offset arithmetic of hit testing for pango, CoreText and
    DirectWrite.
  - `font_spans`: resolving font attributes into runs for CoreText.
  - `graphemes`: grapheme cluster ranges.
  - `pixels`: image formats, premultiplication, filling cairo surfaces, and
    copying pixels out of cairo, CoreGraphics and Direct3D surfaces.
  - `color`: colors for skia, pango and SVG; pango font weights.
  - `svg_id`: the names of SVG elements.
  - `platform`: Direct3D texture flags, Direct2D fill modes, OpenType tags,
    and the back-ends' stateless types.
  - `strip`: sparse strip rendering: sorting tiles and grouping them into
    strips and coverage columns.
- `tests/` exercises the library on concrete values.
- `app/` holds what stays outside: floating-point geometry and metrics, and
  the glue around the platforms' text engines.

The library calls two outside crates: `xi-unicode` for line break
opportunities and `unicode-segmentation` for grapheme clusters. `app/` also
uses `piet`'s color, font weight and text metric types.
