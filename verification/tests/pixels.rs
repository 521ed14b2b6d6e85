use piet_verified::pixels::{
    copy_bitmap_pixels, copy_surface_pixels, copy_texture_pixels, d2d_alpha_mode,
    d2d_bitmap_pixels, fill_image_data, premul, surface_format, write_rgb, write_rgba, AlphaMode,
    ImageFormat, PixelError, SurfaceFormat,
};

fn argb(r: u8, g: u8, b: u8, a: u8) -> [u8; 4] {
    ((a as u32) << 24 | (r as u32) << 16 | (g as u32) << 8 | b as u32).to_ne_bytes()
}

#[test]
fn bytes_per_pixel() {
    assert_eq!(ImageFormat::Grayscale.bytes_per_pixel(), 1);
    assert_eq!(ImageFormat::Rgb.bytes_per_pixel(), 3);
    assert_eq!(ImageFormat::RgbaSeparate.bytes_per_pixel(), 4);
    assert_eq!(ImageFormat::RgbaPremul.bytes_per_pixel(), 4);
}

#[test]
fn premultiply_rounds() {
    assert_eq!(premul(255, 255), 255);
    assert_eq!(premul(123, 255), 123);
    assert_eq!(premul(200, 0), 0);
    assert_eq!(premul(200, 128), 100);
    assert_eq!(premul(255, 128), 128);
    for x in 0..=255u8 {
        for a in (0..=255u8).step_by(17) {
            assert!(premul(x, a) <= a);
        }
    }
}

#[test]
fn write_pixels_native_endian() {
    let mut data = [0xaau8; 12];
    write_rgba(&mut data, 1, 1, 2, 3, 4);
    assert_eq!(&data[4..8], &argb(1, 2, 3, 4));
    assert_eq!(&data[0..4], &[0xaa; 4]);
    assert_eq!(&data[8..12], &[0xaa; 4]);
    write_rgb(&mut data, 2, 9, 8, 7);
    assert_eq!(&data[8..12], &argb(9, 8, 7, 0));
}

#[test]
fn surface_formats() {
    assert_eq!(surface_format(ImageFormat::Rgb), SurfaceFormat::Rgb24);
    assert_eq!(surface_format(ImageFormat::Grayscale), SurfaceFormat::Rgb24);
    assert_eq!(surface_format(ImageFormat::RgbaSeparate), SurfaceFormat::Argb32);
    assert_eq!(surface_format(ImageFormat::RgbaPremul), SurfaceFormat::Argb32);
}

#[test]
fn fill_rgb_image_keeps_row_padding() {
    let buf = [1, 2, 3, 4, 5, 6, 7, 8, 9, 10, 11, 12];
    let mut data = [0xaau8; 24];
    fill_image_data(&mut data, 12, 2, 2, &buf, ImageFormat::Rgb);
    assert_eq!(&data[0..4], &argb(1, 2, 3, 0));
    assert_eq!(&data[4..8], &argb(4, 5, 6, 0));
    assert_eq!(&data[8..12], &[0xaa; 4]);
    assert_eq!(&data[12..16], &argb(7, 8, 9, 0));
    assert_eq!(&data[16..20], &argb(10, 11, 12, 0));
    assert_eq!(&data[20..24], &[0xaa; 4]);
}

#[test]
fn fill_other_formats() {
    let mut data = [0u8; 8];
    fill_image_data(&mut data, 8, 2, 1, &[5, 6], ImageFormat::Grayscale);
    assert_eq!(&data[0..4], &argb(5, 5, 5, 0));
    assert_eq!(&data[4..8], &argb(6, 6, 6, 0));

    let mut data = [0u8; 4];
    fill_image_data(&mut data, 4, 1, 1, &[200, 255, 0, 128], ImageFormat::RgbaSeparate);
    assert_eq!(&data[..], &argb(100, 128, 0, 128));

    let mut data = [0u8; 4];
    fill_image_data(&mut data, 4, 1, 1, &[200, 255, 0, 128], ImageFormat::RgbaPremul);
    assert_eq!(&data[..], &argb(200, 255, 0, 128));

    let mut data = [7u8; 4];
    fill_image_data(&mut data, 4, 0, 1, &[], ImageFormat::Rgb);
    assert_eq!(data, [7; 4]);
}

/// Two rows of two BGRA pixels, rows 12 bytes apart.
fn surface() -> Vec<u8> {
    vec![
        1, 2, 3, 4, 5, 6, 7, 8, 0, 0, 0, 0, //
        9, 10, 11, 12, 13, 14, 15, 16, 0, 0, 0, 0,
    ]
}

#[test]
fn copy_surface_swaps_red_and_blue() {
    let src = surface();
    let mut buf = [0u8; 18];
    assert_eq!(copy_surface_pixels(ImageFormat::RgbaPremul, &src, 12, 2, 2, &mut buf), Ok(16));
    assert_eq!(
        &buf[..16],
        &[3, 2, 1, 4, 7, 6, 5, 8, 11, 10, 9, 12, 15, 14, 13, 16]
    );
    assert_eq!(&buf[16..], &[0, 0]);
}

#[test]
fn copy_surface_errors_leave_buffer() {
    let src = surface();
    let mut buf = [9u8; 15];
    assert_eq!(
        copy_surface_pixels(ImageFormat::RgbaPremul, &src, 12, 2, 2, &mut buf),
        Err(PixelError::InvalidInput)
    );
    assert_eq!(buf, [9; 15]);
    let mut buf = [9u8; 16];
    assert_eq!(
        copy_surface_pixels(ImageFormat::Rgb, &src, 12, 2, 2, &mut buf),
        Err(PixelError::NotSupported)
    );
    assert_eq!(buf, [9; 16]);
}

#[test]
fn copy_bitmap_keeps_rgba_order() {
    let src: Vec<u8> = (1..=16).collect();
    let mut buf = [0u8; 16];
    assert_eq!(copy_bitmap_pixels(ImageFormat::RgbaPremul, &src, 8, 2, 2, &mut buf), Ok(16));
    assert_eq!(&buf[..], &src[..]);

    // A larger buffer than the bitmap: only the pixels are written.
    let mut big = [7u8; 20];
    assert_eq!(copy_bitmap_pixels(ImageFormat::RgbaPremul, &src, 8, 2, 2, &mut big), Ok(16));
    assert_eq!(&big[..16], &src[..]);
    assert_eq!(&big[16..], &[7, 7, 7, 7]);

    // Padded rows: the padding is dropped and the channels keep their order.
    let src = surface();
    let mut buf = [0u8; 16];
    assert_eq!(copy_bitmap_pixels(ImageFormat::RgbaPremul, &src, 12, 2, 2, &mut buf), Ok(16));
    assert_eq!(&buf[..4], &src[..4]);
    assert_eq!(&buf[8..12], &src[12..16]);
    assert_eq!(
        copy_bitmap_pixels(ImageFormat::RgbaSeparate, &src, 12, 2, 2, &mut buf),
        Err(PixelError::NotSupported)
    );
    let mut small = [5u8; 15];
    assert_eq!(
        copy_bitmap_pixels(ImageFormat::RgbaPremul, &src, 12, 2, 2, &mut small),
        Err(PixelError::InvalidInput)
    );
    assert_eq!(small, [5u8; 15]);
}

#[test]
fn copy_texture_drops_row_padding() {
    let src = surface();
    let mut buf = [0u8; 16];
    assert_eq!(copy_texture_pixels(ImageFormat::RgbaPremul, &src, 12, 2, 2, &mut buf), Ok(16));
    assert_eq!(&buf[..], &[1, 2, 3, 4, 5, 6, 7, 8, 9, 10, 11, 12, 13, 14, 15, 16]);
    let mut small = [0u8; 8];
    assert_eq!(
        copy_texture_pixels(ImageFormat::RgbaPremul, &src, 12, 2, 2, &mut small),
        Err(PixelError::InvalidInput)
    );
}

#[test]
fn d2d_bitmaps_are_rgba() {
    assert_eq!(d2d_bitmap_pixels(0, 3, &[], ImageFormat::Rgb), None);
    assert_eq!(
        d2d_bitmap_pixels(2, 1, &[1, 2, 3, 4, 5, 6], ImageFormat::Rgb),
        Some(vec![1, 2, 3, 255, 4, 5, 6, 255])
    );
    assert_eq!(
        d2d_bitmap_pixels(2, 1, &[7, 8], ImageFormat::Grayscale),
        Some(vec![7, 7, 7, 255, 8, 8, 8, 255])
    );
    assert_eq!(
        d2d_bitmap_pixels(1, 1, &[200, 255, 0, 128], ImageFormat::RgbaSeparate),
        Some(vec![100, 128, 0, 128])
    );
    assert_eq!(
        d2d_bitmap_pixels(1, 1, &[200, 255, 0, 128, 1], ImageFormat::RgbaPremul),
        Some(vec![200, 255, 0, 128, 1])
    );
    assert_eq!(d2d_alpha_mode(ImageFormat::Rgb), AlphaMode::Ignore);
    assert_eq!(d2d_alpha_mode(ImageFormat::RgbaSeparate), AlphaMode::Premultiplied);
}

#[test]
fn surface_round_trip() {
    let buf: Vec<u8> = (1..=24).collect();
    let mut data = vec![0u8; 32];
    fill_image_data(&mut data, 16, 3, 2, &buf, ImageFormat::RgbaPremul);
    let mut out = vec![0u8; 24];
    assert_eq!(copy_surface_pixels(ImageFormat::RgbaPremul, &data, 16, 3, 2, &mut out), Ok(24));
    let little_endian = u32::from_ne_bytes([1, 0, 0, 0]) == 1;
    if little_endian {
        assert_eq!(out, buf);
    }
}
