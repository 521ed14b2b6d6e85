//! Pixel format conversions between piet's image formats and the layouts
//! that the rendering back-ends store.

use vstd::prelude::*;
use vstd::arithmetic::div_mod::lemma_fundamental_div_mod_converse;

verus! {

/// The pixel formats of piet images.
#[derive(Clone, Copy, Debug, PartialEq, Eq, Structural)]
pub enum ImageFormat {
    /// 1 byte per pixel.
    Grayscale,
    /// 3 bytes per pixel, in RGB order.
    Rgb,
    /// 4 bytes per pixel, in RGBA order, with separate alpha.
    RgbaSeparate,
    /// 4 bytes per pixel, in RGBA order, with premultiplied alpha.
    RgbaPremul,
}

/// Errors of the pixel conversions.
#[derive(Clone, Copy, Debug, PartialEq, Eq, Structural)]
pub enum PixelError {
    /// The requested format is not supported by this conversion.
    NotSupported,
    /// The destination buffer is too small.
    InvalidInput,
}

pub open spec fn format_bytes_per_pixel(f: ImageFormat) -> nat {
    match f {
        ImageFormat::Grayscale => 1,
        ImageFormat::Rgb => 3,
        ImageFormat::RgbaSeparate => 4,
        ImageFormat::RgbaPremul => 4,
    }
}

impl ImageFormat {
    /// The number of bytes required to represent a pixel in this format.
    pub fn bytes_per_pixel(self) -> (n: usize)
        ensures
            n == format_bytes_per_pixel(self),
    {
        match self {
            ImageFormat::Grayscale => 1,
            ImageFormat::Rgb => 3,
            ImageFormat::RgbaSeparate => 4,
            ImageFormat::RgbaPremul => 4,
        }
    }
}

/// A color channel multiplied by alpha, rounded: `x * a / 255`.
pub open spec fn premul_spec(x: u8, a: u8) -> int {
    let y = x * a;
    (y + y / 256 + 128) / 256
}

/// Multiply a color channel by alpha.
pub fn premul(x: u8, a: u8) -> (r: u8)
    ensures
        r == premul_spec(x, a),
{
    assert(x * a <= 65025) by (nonlinear_arith)
        requires
            x <= 255,
            a <= 255,
    ;
    let y = (x as u16) * (a as u16);
    assert(y >> 8 == y / 256) by (bit_vector);
    let z: u16 = y + (y >> 8) + 0x80;
    assert(z >> 8 == z / 256) by (bit_vector);
    (z >> 8) as u8
}

/// A premultiplied channel never exceeds alpha; full alpha keeps the
/// channel, zero alpha clears it, and a full channel becomes alpha.
pub proof fn lemma_premul_bounds(x: u8, a: u8)
    ensures
        premul_spec(x, a) <= a,
        premul_spec(x, 255) == x,
        premul_spec(x, 0) == 0,
        premul_spec(255, a) == a,
{
    assert((x * a + (x * a) / 256 + 128) / 256 <= a) by (bit_vector);
    assert((x * 255 + (x * 255) / 256 + 128) / 256 == x) by (bit_vector);
    assert((255 * a + (255 * a) / 256 + 128) / 256 == a) by (bit_vector);
}

/// Little-endian bytes of a 32-bit value.
pub open spec fn le_bytes(x: u32) -> Seq<u8> {
    seq![(x & 0xff) as u8, ((x >> 8) & 0xff) as u8, ((x >> 16) & 0xff) as u8, (x >> 24) as u8]
}

/// Big-endian bytes of a 32-bit value.
pub open spec fn be_bytes(x: u32) -> Seq<u8> {
    seq![(x >> 24) as u8, ((x >> 16) & 0xff) as u8, ((x >> 8) & 0xff) as u8, (x & 0xff) as u8]
}

/// Bytes of `x` in the machine's byte order, from std's `u32::to_ne_bytes`.
///
/// Trusted: std documents the result as the native-endian encoding, which
/// is the little-endian or the big-endian one. Which of them is not stated:
/// it depends on the machine.
#[verifier::external_body]
fn ne_bytes(x: u32) -> (r: [u8; 4])
    ensures
        r@ == le_bytes(x) || r@ == be_bytes(x),
{
    x.to_ne_bytes()
}

/// A 32-bit ARGB pixel: alpha in the upper 8 bits, then red, green, blue.
pub open spec fn argb(r: u8, g: u8, b: u8, a: u8) -> u32 {
    (a * 0x100_0000 + r * 0x1_0000 + g * 0x100 + b) as u32
}

/// The 4 bytes at `off` hold `p` in one of the two byte orders.
pub open spec fn pixel_at(data: Seq<u8>, off: int, p: u32) -> bool {
    ||| data.subrange(off, off + 4) == le_bytes(p)
    ||| data.subrange(off, off + 4) == be_bytes(p)
}

/// Write one native-endian ARGB32 pixel at `column` of a row (the layout of
/// cairo's ARGB32 format).
pub fn write_rgba(data: &mut [u8], column: usize, r: u8, g: u8, b: u8, a: u8)
    requires
        4 * column + 4 <= old(data)@.len(),
    ensures
        final(data)@.len() == old(data)@.len(),
        pixel_at(final(data)@, 4 * column as int, argb(r, g, b, a)),
        forall|j: int|
            0 <= j < old(data)@.len() && !(4 * column <= j < 4 * column + 4) ==> #[trigger] final(data)@[j] == old(data)@[j],
{
    let (a, r, g, b) = (a as u32, r as u32, g as u32, b as u32);
    assert((a << 24 | r << 16 | g << 8 | b) == a * 0x100_0000 + r * 0x1_0000 + g * 0x100 + b
        && a * 0x100_0000 + r * 0x1_0000 + g * 0x100 + b <= 0xffff_ffff) by (bit_vector)
        requires
            a < 256 && r < 256 && g < 256 && b < 256,
    ;
    let pixel = a << 24 | r << 16 | g << 8 | b;
    let bytes = ne_bytes(pixel);
    let _n = data.len();
    data[4 * column] = bytes[0];
    data[4 * column + 1] = bytes[1];
    data[4 * column + 2] = bytes[2];
    data[4 * column + 3] = bytes[3];
    assert(data@.subrange(4 * column as int, 4 * column as int + 4) =~= bytes@);
}

/// Write one native-endian RGB24 pixel (the upper 8 bits unused, written 0).
pub fn write_rgb(data: &mut [u8], column: usize, r: u8, g: u8, b: u8)
    requires
        4 * column + 4 <= old(data)@.len(),
    ensures
        final(data)@.len() == old(data)@.len(),
        pixel_at(final(data)@, 4 * column as int, argb(r, g, b, 0)),
        forall|j: int|
            0 <= j < old(data)@.len() && !(4 * column <= j < 4 * column + 4) ==> #[trigger] final(data)@[j] == old(data)@[j],
{
    write_rgba(data, column, r, g, b, 0);
}


/// The two cairo surface formats that images are stored in.
#[derive(Clone, Copy, Debug, PartialEq, Eq, Structural)]
pub enum SurfaceFormat {
    /// 32 bits per pixel, the upper 8 unused, then red, green, blue.
    Rgb24,
    /// 32 bits per pixel: alpha, red, green, blue, premultiplied.
    Argb32,
}

pub open spec fn surface_format_spec(format: ImageFormat) -> SurfaceFormat {
    match format {
        ImageFormat::Rgb | ImageFormat::Grayscale => SurfaceFormat::Rgb24,
        ImageFormat::RgbaSeparate | ImageFormat::RgbaPremul => SurfaceFormat::Argb32,
    }
}

/// The cairo surface format that holds an image of the given format.
pub fn surface_format(format: ImageFormat) -> (s: SurfaceFormat)
    ensures
        s == surface_format_spec(format),
{
    match format {
        ImageFormat::Rgb | ImageFormat::Grayscale => SurfaceFormat::Rgb24,
        ImageFormat::RgbaSeparate | ImageFormat::RgbaPremul => SurfaceFormat::Argb32,
    }
}

/// The 32-bit pixel that the surface stores for pixel `(x, y)` of an image
/// of `width` pixels per row whose bytes are `buf`, laid out in `format`.
pub open spec fn source_pixel(buf: Seq<u8>, format: ImageFormat, width: int, y: int, x: int) -> u32 {
    match format {
        ImageFormat::Rgb => {
            let o = y * (width * 3) + x * 3;
            argb(buf[o], buf[o + 1], buf[o + 2], 0)
        },
        ImageFormat::RgbaPremul => {
            let o = y * (width * 4) + x * 4;
            argb(buf[o], buf[o + 1], buf[o + 2], buf[o + 3])
        },
        ImageFormat::RgbaSeparate => {
            let o = y * (width * 4) + x * 4;
            let a = buf[o + 3];
            argb(
                premul_spec(buf[o], a) as u8,
                premul_spec(buf[o + 1], a) as u8,
                premul_spec(buf[o + 2], a) as u8,
                a,
            )
        },
        ImageFormat::Grayscale => {
            let o = y * width + x;
            argb(buf[o], buf[o], buf[o], 0)
        },
    }
}

/// The byte offset in the surface data of pixel `(x, y)`, rows being
/// `stride` bytes apart.
pub open spec fn pixel_offset(stride: int, y: int, x: int) -> int {
    4 * (y * (stride / 4) + x)
}

/// Byte `j` of the surface data belongs to a pixel `(x, y)` with
/// `x < width` that comes before `(x0, y0)` in row order.
pub open spec fn written_before(j: int, stride: int, width: int, y0: int, x0: int) -> bool {
    let c = j / 4;
    let s4 = stride / 4;
    &&& c % s4 < width
    &&& (c / s4 < y0 || (c / s4 == y0 && c % s4 < x0))
}

/// Byte `j` of the surface data belongs to one of the image's pixels.
pub open spec fn in_image(j: int, stride: int, width: int, height: int) -> bool {
    width > 0 && written_before(j, stride, width, height, 0)
}

proof fn lemma_pixel_in_row(y: int, x: int, height: int, width: int, s4: int)
    requires
        0 <= y < height,
        0 <= x < width <= s4,
    ensures
        4 * (y * s4 + x) + 4 <= height * (4 * s4),
        0 <= y * s4 + x,
        y * s4 <= height * s4,
{
    assert(4 * (y * s4 + x) + 4 <= height * (4 * s4)) by (nonlinear_arith)
        requires
            0 <= y < height,
            0 <= x < width <= s4,
    ;
    assert(0 <= y * s4 && y * s4 <= height * s4) by (nonlinear_arith)
        requires
            0 <= y < height,
            0 <= s4,
    ;
}

proof fn lemma_source_in_buf(y: int, x: int, k: int, height: int, width: int, bpp: int)
    requires
        0 <= y < height,
        0 <= x < width,
        0 <= k < bpp,
    ensures
        0 <= y * (width * bpp) + x * bpp + k < height * (width * bpp),
        y * (width * bpp) <= height * (width * bpp),
{
    assert(0 <= y * (width * bpp) + x * bpp + k < height * (width * bpp)
        && y * (width * bpp) <= height * (width * bpp)) by (nonlinear_arith)
        requires
            0 <= y < height,
            0 <= x < width,
            0 <= k < bpp,
    ;
}

proof fn lemma_earlier_column(yy: int, xx: int, y: int, x: int, s4: int)
    requires
        0 <= xx < s4,
        0 <= x,
        yy < y || (yy == y && xx < x),
    ensures
        yy * s4 + xx < y * s4 + x,
{
    assert(yy * s4 + xx < y * s4 + x) by (nonlinear_arith)
        requires
            0 <= xx < s4,
            0 <= x,
            yy < y || (yy == y && xx < x),
    ;
}

/// Fill the data of a cairo image surface (rows `stride` bytes apart) with
/// the pixels of an image of `width` by `height` pixels given in `format`.
/// Bytes outside the image's pixels are left as they were.
///
/// `stride` is that of a cairo surface made for the image: cairo makes it a
/// multiple of 4 and at least 4 bytes per pixel of a row, and the surface
/// holds `height` such rows.
pub fn fill_image_data(
    data: &mut [u8],
    stride: usize,
    width: usize,
    height: usize,
    buf: &[u8],
    format: ImageFormat,
)
    requires
        width > 0 && height > 0 ==> {
            &&& stride % 4 == 0
            &&& 4 * width <= stride
            &&& height * stride <= old(data)@.len()
            &&& height * (width * format_bytes_per_pixel(format)) <= buf@.len()
        },
    ensures
        final(data)@.len() == old(data)@.len(),
        forall|y: int, x: int|
            0 <= y < height && 0 <= x < width ==> pixel_at(
                final(data)@,
                pixel_offset(stride as int, y, x),
                #[trigger] source_pixel(buf@, format, width as int, y, x),
            ),
        forall|j: int|
            0 <= j < old(data)@.len() && !in_image(j, stride as int, width as int, height as int)
                ==> #[trigger] final(data)@[j] == old(data)@[j],
{
    if width == 0 || height == 0 {
        return;
    }
    let ghost orig = data@;
    let len = data.len();
    let blen = buf.len();
    let bpp = format.bytes_per_pixel();
    proof {
        lemma_source_in_buf(0, 0, 0, height as int, width as int, bpp as int);
        assert(width * bpp <= height * (width * bpp)) by (nonlinear_arith)
            requires
                height >= 1,
                width * bpp >= 0,
        ;
    }
    let bytes_per_row = width * bpp;
    let s4 = stride / 4;
    let mut y: usize = 0;
    while y < height
        invariant
            0 < width <= s4,
            stride == 4 * s4,
            len == data@.len(),
            orig.len() == len,
            height * stride <= len,
            bpp == format_bytes_per_pixel(format),
            bytes_per_row == width * bpp,
            height * (width * bpp) <= buf@.len(),
            buf@.len() == blen,
            y <= height,
            forall|yy: int, xx: int|
                0 <= yy < y && 0 <= xx < width ==> pixel_at(
                    data@,
                    pixel_offset(stride as int, yy, xx),
                    #[trigger] source_pixel(buf@, format, width as int, yy, xx),
                ),
            forall|j: int|
                0 <= j < len && !written_before(j, stride as int, width as int, y as int, 0)
                    ==> #[trigger] data@[j] == orig[j],
        decreases height - y,
    {
        proof {
            lemma_source_in_buf(y as int, 0, 0, height as int, width as int, bpp as int);
            lemma_pixel_in_row(y as int, 0, height as int, width as int, s4 as int);
        }
        let src_off = y * bytes_per_row;
        let row = y * s4;
        let mut x: usize = 0;
        while x < width
            invariant
                0 < width <= s4,
                stride == 4 * s4,
                len == data@.len(),
                orig.len() == len,
                height * stride <= len,
                bpp == format_bytes_per_pixel(format),
                bytes_per_row == width * bpp,
                height * (width * bpp) <= buf@.len(),
                buf@.len() == blen,
                y < height,
                src_off == y * bytes_per_row,
                row == y * s4,
                x <= width,
                forall|yy: int, xx: int|
                    0 <= yy < y && 0 <= xx < width || yy == y && 0 <= xx < x ==> pixel_at(
                        data@,
                        pixel_offset(stride as int, yy, xx),
                        #[trigger] source_pixel(buf@, format, width as int, yy, xx),
                    ),
                forall|j: int|
                    0 <= j < len && !written_before(j, stride as int, width as int, y as int, x as int)
                        ==> #[trigger] data@[j] == orig[j],
            decreases width - x,
        {
            proof {
                lemma_pixel_in_row(y as int, x as int, height as int, width as int, s4 as int);
                lemma_source_in_buf(y as int, x as int, bpp - 1, height as int, width as int, bpp as int);
            }
            let ghost before = data@;
            let col = row + x;
            match format {
                ImageFormat::Rgb => {
                    write_rgb(
                        data,
                        col,
                        buf[src_off + x * 3],
                        buf[src_off + x * 3 + 1],
                        buf[src_off + x * 3 + 2],
                    );
                },
                ImageFormat::RgbaPremul => {
                    write_rgba(
                        data,
                        col,
                        buf[src_off + x * 4],
                        buf[src_off + x * 4 + 1],
                        buf[src_off + x * 4 + 2],
                        buf[src_off + x * 4 + 3],
                    );
                },
                ImageFormat::RgbaSeparate => {
                    let a = buf[src_off + x * 4 + 3];
                    write_rgba(
                        data,
                        col,
                        premul(buf[src_off + x * 4], a),
                        premul(buf[src_off + x * 4 + 1], a),
                        premul(buf[src_off + x * 4 + 2], a),
                        a,
                    );
                },
                ImageFormat::Grayscale => {
                    write_rgb(data, col, buf[src_off + x], buf[src_off + x], buf[src_off + x]);
                },
            }
            proof {
                let k = col as int;
                assert(pixel_offset(stride as int, y as int, x as int) == 4 * k);
                assert forall|yy: int, xx: int|
                    0 <= yy < y && 0 <= xx < width || yy == y && 0 <= xx < x + 1 implies pixel_at(
                        data@,
                        pixel_offset(stride as int, yy, xx),
                        #[trigger] source_pixel(buf@, format, width as int, yy, xx),
                    ) by {
                    if !(yy == y && xx == x) {
                        lemma_earlier_column(yy, xx, y as int, x as int, s4 as int);
                        let o = pixel_offset(stride as int, yy, xx);
                        assert(data@.subrange(o, o + 4) =~= before.subrange(o, o + 4));
                    }
                }
                assert forall|j: int|
                    0 <= j < len && !written_before(j, stride as int, width as int, y as int, x + 1)
                        implies #[trigger] data@[j] == orig[j] by {
                    if 4 * k <= j < 4 * k + 4 {
                        lemma_fundamental_div_mod_converse(j, 4, k, j - 4 * k);
                        lemma_fundamental_div_mod_converse(k, s4 as int, y as int, x as int);
                        assert(stride as int / 4 == s4);
                    }
                }
            }
            x = x + 1;
        }
        y = y + 1;
    }
}


/// Index in an RGBA buffer of `width` pixels per row of channel `k` of pixel
/// `(x, y)`.
pub open spec fn rgba_index(width: int, y: int, x: int, k: int) -> int {
    y * (width * 4) + x * 4 + k
}

/// Which byte of a 4-byte pixel holds channel `k` (red, green, blue,
/// alpha): the same one, or with red and blue swapped.
pub open spec fn src_channel(k: int, swap: bool) -> int {
    if swap && k != 3 {
        2 - k
    } else {
        k
    }
}

/// Index in pixel data whose rows are `stride` bytes apart of the byte that
/// holds channel `k` of pixel `(x, y)`; with `swap`, the data is in BGRA
/// order.
pub open spec fn surface_index(stride: int, y: int, x: int, k: int, swap: bool) -> int {
    y * stride + x * 4 + src_channel(k, swap)
}

/// The surface holds `height` rows of `width` pixels, `stride` bytes apart.
pub open spec fn surface_fits(src_len: int, stride: int, width: int, height: int) -> bool {
    height > 0 ==> (height - 1) * stride + width * 4 <= src_len
}

/// `new` is `old` with the first `width * height * 4` bytes replaced by the
/// pixels of `src` (rows `stride` bytes apart) in RGBA order; with `swap`,
/// `src` holds them in BGRA order.
pub open spec fn copied_pixels(
    old: Seq<u8>,
    new: Seq<u8>,
    src: Seq<u8>,
    stride: int,
    width: int,
    height: int,
    swap: bool,
) -> bool {
    &&& new.len() == old.len()
    &&& forall|y: int, x: int, k: int|
        0 <= y < height && 0 <= x < width && 0 <= k < 4 ==> #[trigger] new[rgba_index(
            width,
            y,
            x,
            k,
        )] == src[surface_index(stride, y, x, k, swap)]
    &&& forall|j: int| width * height * 4 <= j < old.len() ==> #[trigger] new[j] == old[j]
}

proof fn lemma_rgba_earlier(width: int, yy: int, xx: int, kk: int, y: int, x: int)
    requires
        0 <= xx < width,
        0 <= x,
        0 <= kk < 4,
        yy < y || (yy == y && xx < x),
    ensures
        rgba_index(width, yy, xx, kk) < rgba_index(width, y, x, 0),
{
    assert(yy * (width * 4) + xx * 4 + kk < y * (width * 4) + x * 4) by (nonlinear_arith)
        requires
            0 <= xx < width,
            0 <= x,
            0 <= kk < 4,
            yy < y || (yy == y && xx < x),
    ;
}

proof fn lemma_rgba_bounds(width: int, height: int, stride: int, y: int, x: int)
    requires
        0 <= y < height,
        0 <= x < width,
        0 <= stride,
    ensures
        0 <= y * (width * 4) <= rgba_index(width, y, x, 0),
        rgba_index(width, y, x, 3) < width * height * 4,
        0 <= y * stride <= (height - 1) * stride,
{
    assert(0 <= y * (width * 4) && y * (width * 4) + x * 4 + 3 < width * height * 4)
        by (nonlinear_arith)
        requires
            0 <= y < height,
            0 <= x < width,
    ;
    assert(0 <= y * stride <= (height - 1) * stride) by (nonlinear_arith)
        requires
            0 <= y < height,
            0 <= stride,
    ;
}

/// Copy the rows of pixels of `src` into `buf` without gaps, as RGBA; with
/// `swap`, `src` holds them as BGRA.
fn copy_rows(src: &[u8], stride: usize, width: usize, height: usize, buf: &mut [u8], swap: bool)
    requires
        width * height * 4 <= old(buf)@.len(),
        surface_fits(src@.len() as int, stride as int, width as int, height as int),
    ensures
        copied_pixels(old(buf)@, final(buf)@, src@, stride as int, width as int, height as int, swap),
{
    let ghost orig = buf@;
    let len = buf.len();
    let slen = src.len();
    let mut y: usize = 0;
    while y < height
        invariant
            len == buf@.len(),
            orig.len() == len,
            slen == src@.len(),
            width * height * 4 <= len,
            surface_fits(slen as int, stride as int, width as int, height as int),
            y <= height,
            forall|yy: int, xx: int, k: int|
                0 <= yy < y && 0 <= xx < width && 0 <= k < 4 ==> #[trigger] buf@[rgba_index(
                    width as int,
                    yy,
                    xx,
                    k,
                )] == src@[surface_index(stride as int, yy, xx, k, swap)],
            forall|j: int|
                rgba_index(width as int, y as int, 0, 0) <= j < len ==> #[trigger] buf@[j]
                    == orig[j],
        decreases height - y,
    {
        proof {
            if width > 0 {
                lemma_rgba_bounds(width as int, height as int, stride as int, y as int, 0);
            }
            assert(0 <= y * stride <= (height - 1) * stride) by (nonlinear_arith)
                requires
                    0 <= y < height,
            ;
            assert(0 <= y * width && (y * width) * 4 == y * (width * 4) && y * (width * 4)
                <= height * (width * 4) && height * (width * 4) == width * height * 4)
                by (nonlinear_arith)
                requires
                    0 <= y < height,
            ;
        }
        let src_off = y * stride;
        let dst_off = y * width * 4;
        let mut x: usize = 0;
        while x < width
            invariant
                len == buf@.len(),
                orig.len() == len,
                slen == src@.len(),
                width * height * 4 <= len,
                surface_fits(slen as int, stride as int, width as int, height as int),
                y < height,
                src_off == y * stride,
                dst_off == y * (width * 4),
                x <= width,
                forall|yy: int, xx: int, k: int|
                    (0 <= yy < y && 0 <= xx < width || yy == y && 0 <= xx < x) && 0 <= k < 4
                        ==> #[trigger] buf@[rgba_index(width as int, yy, xx, k)]
                        == src@[surface_index(stride as int, yy, xx, k, swap)],
                forall|j: int|
                    rgba_index(width as int, y as int, x as int, 0) <= j < len ==> #[trigger] buf@[j]
                        == orig[j],
            decreases width - x,
        {
            proof {
                lemma_rgba_bounds(width as int, height as int, stride as int, y as int, x as int);
            }
            let ghost before = buf@;
            if swap {
                buf[dst_off + x * 4] = src[src_off + x * 4 + 2];
                buf[dst_off + x * 4 + 1] = src[src_off + x * 4 + 1];
                buf[dst_off + x * 4 + 2] = src[src_off + x * 4];
                buf[dst_off + x * 4 + 3] = src[src_off + x * 4 + 3];
            } else {
                buf[dst_off + x * 4] = src[src_off + x * 4];
                buf[dst_off + x * 4 + 1] = src[src_off + x * 4 + 1];
                buf[dst_off + x * 4 + 2] = src[src_off + x * 4 + 2];
                buf[dst_off + x * 4 + 3] = src[src_off + x * 4 + 3];
            }
            proof {
                assert forall|yy: int, xx: int, k: int|
                    (0 <= yy < y && 0 <= xx < width || yy == y && 0 <= xx < x + 1) && 0 <= k < 4
                        implies #[trigger] buf@[rgba_index(width as int, yy, xx, k)]
                        == src@[surface_index(stride as int, yy, xx, k, swap)] by {
                    if !(yy == y && xx == x) {
                        lemma_rgba_earlier(width as int, yy, xx, k, y as int, x as int);
                        assert(buf@[rgba_index(width as int, yy, xx, k)] == before[rgba_index(
                            width as int,
                            yy,
                            xx,
                            k,
                        )]);
                    }
                }
            }
            x = x + 1;
        }
        proof {
            assert(rgba_index(width as int, y as int, width as int, 0) == rgba_index(
                width as int,
                y + 1,
                0,
                0,
            )) by (nonlinear_arith);
        }
        y = y + 1;
    }
    proof {
        assert(rgba_index(width as int, height as int, 0, 0) == width * height * 4)
            by (nonlinear_arith);
    }
}

/// Copy the pixels of a cairo image surface (ARGB32 in native byte order,
/// which is BGRA in memory) into `buf` as premultiplied RGBA. On success,
/// returns the number of bytes written; on failure nothing is written.
pub fn copy_surface_pixels(
    fmt: ImageFormat,
    src: &[u8],
    stride: usize,
    width: usize,
    height: usize,
    buf: &mut [u8],
) -> (r: Result<usize, PixelError>)
    requires
        fmt == ImageFormat::RgbaPremul ==> width * height * 4 <= usize::MAX,
        fmt == ImageFormat::RgbaPremul && old(buf)@.len() >= width * height * 4 ==> surface_fits(
            src@.len() as int,
            stride as int,
            width as int,
            height as int,
        ),
    ensures
        fmt != ImageFormat::RgbaPremul ==> r == Err::<usize, PixelError>(PixelError::NotSupported),
        fmt == ImageFormat::RgbaPremul && old(buf)@.len() < width * height * 4 ==> r == Err::<
            usize,
            PixelError,
        >(PixelError::InvalidInput),
        r is Err ==> final(buf)@ == old(buf)@,
        fmt == ImageFormat::RgbaPremul && old(buf)@.len() >= width * height * 4 ==> {
            &&& r == Ok::<usize, PixelError>((width * height * 4) as usize)
            &&& copied_pixels(
                old(buf)@,
                final(buf)@,
                src@,
                stride as int,
                width as int,
                height as int,
                true,
            )
        },
{
    if fmt != ImageFormat::RgbaPremul {
        return Err(PixelError::NotSupported);
    }
    let dst_len = width * height * 4;
    if buf.len() < dst_len {
        return Err(PixelError::InvalidInput);
    }
    copy_rows(src, stride, width, height, buf, true);
    Ok(dst_len)
}

/// Copy the pixels of a CoreGraphics bitmap (premultiplied RGBA, rows
/// `stride` bytes apart) into `buf` without gaps, as raw RGBA. Any buffer
/// of at least `width * height * 4` bytes is accepted; the bytes after the
/// pixels are left as they were. On success, returns the number of bytes
/// written; on failure nothing is written.
pub fn copy_bitmap_pixels(
    fmt: ImageFormat,
    src: &[u8],
    stride: usize,
    width: usize,
    height: usize,
    buf: &mut [u8],
) -> (r: Result<usize, PixelError>)
    requires
        fmt == ImageFormat::RgbaPremul ==> width * height * 4 <= usize::MAX,
        fmt == ImageFormat::RgbaPremul && old(buf)@.len() >= width * height * 4 ==> surface_fits(
            src@.len() as int,
            stride as int,
            width as int,
            height as int,
        ),
    ensures
        fmt != ImageFormat::RgbaPremul ==> r == Err::<usize, PixelError>(PixelError::NotSupported),
        fmt == ImageFormat::RgbaPremul && old(buf)@.len() < width * height * 4 ==> r == Err::<
            usize,
            PixelError,
        >(PixelError::InvalidInput),
        r is Err ==> final(buf)@ == old(buf)@,
        fmt == ImageFormat::RgbaPremul && old(buf)@.len() >= width * height * 4 ==> {
            &&& r == Ok::<usize, PixelError>((width * height * 4) as usize)
            &&& copied_pixels(
                old(buf)@,
                final(buf)@,
                src@,
                stride as int,
                width as int,
                height as int,
                false,
            )
        },
{
    if fmt != ImageFormat::RgbaPremul {
        return Err(PixelError::NotSupported);
    }
    let size = width * height * 4;
    if buf.len() < size {
        return Err(PixelError::InvalidInput);
    }
    copy_rows(src, stride, width, height, buf, false);
    Ok(size)
}

/// Copy the pixels of a mapped Direct3D texture (premultiplied RGBA, rows
/// `pitch` bytes apart) into `buf` without gaps. On success, returns the
/// number of bytes written; on failure nothing is written.
pub fn copy_texture_pixels(
    fmt: ImageFormat,
    src: &[u8],
    pitch: usize,
    width: usize,
    height: usize,
    buf: &mut [u8],
) -> (r: Result<usize, PixelError>)
    requires
        fmt == ImageFormat::RgbaPremul ==> width * height * 4 <= usize::MAX,
        fmt == ImageFormat::RgbaPremul && old(buf)@.len() >= width * height * 4 ==> surface_fits(
            src@.len() as int,
            pitch as int,
            width as int,
            height as int,
        ),
    ensures
        fmt != ImageFormat::RgbaPremul ==> r == Err::<usize, PixelError>(PixelError::NotSupported),
        fmt == ImageFormat::RgbaPremul && old(buf)@.len() < width * height * 4 ==> r == Err::<
            usize,
            PixelError,
        >(PixelError::InvalidInput),
        r is Err ==> final(buf)@ == old(buf)@,
        fmt == ImageFormat::RgbaPremul && old(buf)@.len() >= width * height * 4 ==> {
            &&& r == Ok::<usize, PixelError>((width * height * 4) as usize)
            &&& copied_pixels(
                old(buf)@,
                final(buf)@,
                src@,
                pitch as int,
                width as int,
                height as int,
                false,
            )
        },
{
    if fmt != ImageFormat::RgbaPremul {
        return Err(PixelError::NotSupported);
    }
    let size = width * height * 4;
    if size > buf.len() {
        return Err(PixelError::InvalidInput);
    }
    copy_rows(src, pitch, width, height, buf, false);
    Ok(size)
}

proof fn lemma_le_argb(r: u8, g: u8, b: u8, a: u8)
    ensures
        le_bytes(argb(r, g, b, a)) == seq![b, g, r, a],
{
    let v = argb(r, g, b, a);
    assert(v == (a * 0x100_0000 + r * 0x1_0000 + g * 0x100 + b) as u32);
    let (r32, g32, b32, a32) = (r as u32, g as u32, b as u32, a as u32);
    assert(v == a32 * 0x100_0000 + r32 * 0x1_0000 + g32 * 0x100 + b32);
    assert((v & 0xff) as u8 == b32 as u8 && ((v >> 8) & 0xff) as u8 == g32 as u8 && ((v >> 16)
        & 0xff) as u8 == r32 as u8 && (v >> 24) as u8 == a32 as u8) by (bit_vector)
        requires
            v == a32 * 0x100_0000 + r32 * 0x1_0000 + g32 * 0x100 + b32,
            r32 < 256 && g32 < 256 && b32 < 256 && a32 < 256,
    ;
    assert(le_bytes(v) =~= seq![b, g, r, a]);
}

/// Reading back what was written: an image of premultiplied RGBA pixels
/// filled into a cairo surface, where the surface holds its pixels in
/// little-endian order (BGRA in memory, as the copy expects), copies back
/// out of the surface as the same bytes.
pub proof fn lemma_surface_round_trip(
    buf: Seq<u8>,
    data: Seq<u8>,
    old_out: Seq<u8>,
    out: Seq<u8>,
    stride: int,
    width: int,
    height: int,
)
    requires
        stride >= 0,
        stride % 4 == 0,
        4 * width <= stride,
        height * stride <= data.len(),
        forall|y: int, x: int|
            0 <= y < height && 0 <= x < width ==> data.subrange(
                pixel_offset(stride, y, x),
                pixel_offset(stride, y, x) + 4,
            ) == le_bytes(#[trigger] source_pixel(buf, ImageFormat::RgbaPremul, width, y, x)),
        copied_pixels(old_out, out, data, stride, width, height, true),
    ensures
        forall|y: int, x: int, k: int|
            0 <= y < height && 0 <= x < width && 0 <= k < 4 ==> #[trigger] out[rgba_index(
                width,
                y,
                x,
                k,
            )] == buf[rgba_index(width, y, x, k)],
{
    assert forall|y: int, x: int, k: int|
        0 <= y < height && 0 <= x < width && 0 <= k < 4 implies #[trigger] out[rgba_index(
        width,
        y,
        x,
        k,
    )] == buf[rgba_index(width, y, x, k)] by {
        let o = rgba_index(width, y, x, 0);
        let off = pixel_offset(stride, y, x);
        assert(off == y * stride + x * 4) by (nonlinear_arith)
            requires
                off == 4 * (y * (stride / 4) + x),
                stride % 4 == 0,
                stride >= 0,
        ;
        lemma_pixel_in_row(y, x, height, width, stride / 4);
        let p = source_pixel(buf, ImageFormat::RgbaPremul, width, y, x);
        lemma_le_argb(buf[o], buf[o + 1], buf[o + 2], buf[o + 3]);
        let bytes = data.subrange(off, off + 4);
        assert(bytes == seq![buf[o + 2], buf[o + 1], buf[o], buf[o + 3]]);
        assert(data[surface_index(stride, y, x, k, true)] == bytes[src_channel(k, true)]);
    }
}

/// How Direct2D treats a bitmap's alpha channel.
#[derive(Clone, Copy, Debug, PartialEq, Eq, Structural)]
pub enum AlphaMode {
    /// Alpha is ignored: the bitmap is opaque.
    Ignore,
    /// Color channels are premultiplied by alpha.
    Premultiplied,
}

/// The alpha mode of a Direct2D bitmap made from an image of `format`.
pub fn d2d_alpha_mode(format: ImageFormat) -> (m: AlphaMode)
    ensures
        m == (match format {
            ImageFormat::Rgb | ImageFormat::Grayscale => AlphaMode::Ignore,
            ImageFormat::RgbaPremul | ImageFormat::RgbaSeparate => AlphaMode::Premultiplied,
        }),
{
    match format {
        ImageFormat::Rgb | ImageFormat::Grayscale => AlphaMode::Ignore,
        ImageFormat::RgbaPremul | ImageFormat::RgbaSeparate => AlphaMode::Premultiplied,
    }
}

/// Channel `k` of pixel `i` of a Direct2D bitmap (premultiplied RGBA, 4
/// bytes per pixel) made from an image `buf` of `format`: gray and RGB
/// images become opaque, separate alpha is premultiplied.
pub open spec fn d2d_pixel_byte(buf: Seq<u8>, format: ImageFormat, i: int, k: int) -> u8 {
    match format {
        ImageFormat::Rgb => if k < 3 {
            buf[3 * i + k]
        } else {
            255
        },
        ImageFormat::Grayscale => if k < 3 {
            buf[i]
        } else {
            255
        },
        ImageFormat::RgbaSeparate => if k < 3 {
            premul_spec(buf[4 * i + k], buf[4 * i + 3]) as u8
        } else {
            buf[4 * i + 3]
        },
        ImageFormat::RgbaPremul => buf[4 * i + k],
    }
}

/// The pixels of a Direct2D bitmap made from an image of `width` by
/// `height` pixels: premultiplied RGBA images are used as they are, others
/// are converted pixel by pixel. None for an empty image, for which
/// Direct2D cannot make a bitmap from pixels.
pub fn d2d_bitmap_pixels(width: usize, height: usize, buf: &[u8], format: ImageFormat) -> (r: Option<
    Vec<u8>,
>)
    requires
        format != ImageFormat::RgbaPremul ==> {
            &&& width * height * 4 <= usize::MAX
            &&& width * height * format_bytes_per_pixel(format) <= buf@.len()
        },
    ensures
        (width == 0 || height == 0) <==> r is None,
        r matches Some(v) ==> {
            &&& format == ImageFormat::RgbaPremul ==> v@ == buf@
            &&& format != ImageFormat::RgbaPremul ==> {
                &&& v@.len() == width * height * 4
                &&& forall|i: int, k: int|
                    0 <= i < width * height && 0 <= k < 4 ==> #[trigger] v@[4 * i + k]
                        == d2d_pixel_byte(buf@, format, i, k)
            }
        },
{
    if width == 0 || height == 0 {
        return None;
    }
    if format == ImageFormat::RgbaPremul {
        let mut copy: Vec<u8> = Vec::new();
        let mut j: usize = 0;
        while j < buf.len()
            invariant
                j <= buf@.len(),
                copy@ == buf@.take(j as int),
            decreases buf@.len() - j,
        {
            copy.push(buf[j]);
            j = j + 1;
            assert(copy@ =~= buf@.take(j as int));
        }
        assert(buf@.take(buf@.len() as int) =~= buf@);
        return Some(copy);
    }
    let n = width * height;
    let mut out = vec![255u8; n * 4];
    let mut i: usize = 0;
    while i < n
        invariant
            n == width * height,
            n * 4 <= usize::MAX,
            n * format_bytes_per_pixel(format) <= buf@.len(),
            format != ImageFormat::RgbaPremul,
            out@.len() == n * 4,
            i <= n,
            forall|p: int, k: int|
                0 <= p < i && 0 <= k < 4 ==> #[trigger] out@[4 * p + k] == d2d_pixel_byte(
                    buf@,
                    format,
                    p,
                    k,
                ),
            forall|j: int| 4 * i <= j < 4 * n ==> #[trigger] out@[j] == 255,
        decreases n - i,
    {
        match format {
            ImageFormat::Rgb => {
                out.set(i * 4, buf[i * 3]);
                out.set(i * 4 + 1, buf[i * 3 + 1]);
                out.set(i * 4 + 2, buf[i * 3 + 2]);
            },
            ImageFormat::RgbaSeparate => {
                let a = buf[i * 4 + 3];
                out.set(i * 4, premul(buf[i * 4], a));
                out.set(i * 4 + 1, premul(buf[i * 4 + 1], a));
                out.set(i * 4 + 2, premul(buf[i * 4 + 2], a));
                out.set(i * 4 + 3, a);
            },
            _ => {
                out.set(i * 4, buf[i]);
                out.set(i * 4 + 1, buf[i]);
                out.set(i * 4 + 2, buf[i]);
            },
        }
        proof {
            assert forall|p: int, k: int|
                0 <= p < i + 1 && 0 <= k < 4 implies #[trigger] out@[4 * p + k] == d2d_pixel_byte(
                buf@,
                format,
                p,
                k,
            ) by {
                if p == i && k == 3 {
                    assert(out@[4 * p + k] == 255 || format == ImageFormat::RgbaSeparate);
                }
            }
        }
        i = i + 1;
    }
    Some(out)
}

} // verus!
