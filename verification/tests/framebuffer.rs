use kernel::{char_cell, glyph_cell, FrameBuffer, FrameBufferInfo, PixelFormat};

fn info(width: usize, height: usize, stride: usize, bpp: usize, format: PixelFormat) -> FrameBufferInfo {
    FrameBufferInfo {
        byte_len: stride * height * bpp,
        width,
        height,
        pixel_format: format,
        bytes_per_pixel: bpp,
        stride,
    }
}

fn screen(width: usize, height: usize, stride: usize, bpp: usize, format: PixelFormat, fill: u8) -> FrameBuffer {
    let i = info(width, height, stride, bpp, format);
    FrameBuffer::new(vec![fill; i.byte_len], i).expect("valid layout")
}

#[test]
fn new_accepts_matching_layout() {
    let i = info(4, 3, 5, 4, PixelFormat::Rgb);
    let fb = FrameBuffer::new(vec![7; 60], i).unwrap();
    assert_eq!(fb.data.len(), 60);
    assert_eq!(fb.info.width, 4);
}

#[test]
fn new_rejects_bad_layouts() {
    // wrong number of bytes
    assert!(FrameBuffer::new(vec![0; 59], info(4, 3, 5, 4, PixelFormat::Rgb)).is_none());
    // wider than the stride
    let mut i = info(4, 3, 5, 4, PixelFormat::Rgb);
    i.width = 6;
    assert!(FrameBuffer::new(vec![0; 60], i).is_none());
    // fewer bytes per pixel than a colour needs
    let i = info(4, 3, 4, 2, PixelFormat::Bgr);
    assert!(FrameBuffer::new(vec![0; 24], i).is_none());
    // zero bytes per pixel
    let mut i = info(4, 3, 4, 1, PixelFormat::U8);
    i.bytes_per_pixel = 0;
    assert!(FrameBuffer::new(vec![0; 12], i).is_none());
    // byte_len too small for the grid
    let mut i = info(4, 3, 4, 1, PixelFormat::U8);
    i.byte_len = 11;
    assert!(FrameBuffer::new(vec![0; 11], i).is_none());
    // a size that overflows
    let mut i = info(4, 3, 4, 1, PixelFormat::U8);
    i.stride = usize::MAX;
    i.byte_len = 12;
    assert!(FrameBuffer::new(vec![0; 12], i).is_none());
}

#[test]
fn pixel_at_uses_stride_and_bytes_per_pixel() {
    let fb = screen(4, 3, 5, 4, PixelFormat::Rgb, 0);
    assert_eq!(fb.pixel_at(0, 0), 0);
    assert_eq!(fb.pixel_at(3, 0), 12);
    assert_eq!(fb.pixel_at(2, 1), 4 * (5 + 2));
    assert_eq!(fb.pixel_at(3, 2), 4 * (10 + 3));
}

#[test]
fn put_rgb_writes_red_green_blue() {
    let mut fb = screen(4, 3, 5, 4, PixelFormat::Rgb, 9);
    fb.put(2, 1, 10, 20, 30);
    let o = 4 * (5 + 2);
    assert_eq!(&fb.data[o..o + 4], &[10, 20, 30, 9]);
    let changed = fb.data.iter().filter(|&&v| v != 9).count();
    assert_eq!(changed, 3);
}

#[test]
fn put_bgr_writes_blue_green_red() {
    let mut fb = screen(2, 2, 2, 3, PixelFormat::Bgr, 0);
    fb.put(1, 1, 10, 20, 30);
    assert_eq!(&fb.data[9..12], &[30, 20, 10]);
    assert!(fb.data[..9].iter().all(|&v| v == 0));
}

#[test]
fn put_u8_stores_sum_of_thirds() {
    let mut fb = screen(2, 2, 2, 1, PixelFormat::U8, 0);
    fb.put(0, 1, 100, 50, 255);
    // 100/3 + 255/3 + 50/3 = 33 + 85 + 16
    assert_eq!(fb.data[2], 134);
    assert_eq!(fb.data, vec![0, 0, 134, 0]);
}

#[test]
fn putg_is_grey_put() {
    let mut a = screen(3, 2, 3, 3, PixelFormat::Rgb, 1);
    let mut b = screen(3, 2, 3, 3, PixelFormat::Rgb, 1);
    a.putg(1, 1, 77);
    b.put(1, 1, 77, 77, 77);
    assert_eq!(a.data, b.data);
    let mut g = screen(1, 1, 1, 1, PixelFormat::U8, 0);
    g.putg(0, 0, 100);
    assert_eq!(g.data[0], 99);
}

#[test]
fn last_write_wins() {
    let mut fb = screen(2, 2, 2, 3, PixelFormat::Rgb, 0);
    fb.put(1, 0, 1, 2, 3);
    fb.put(1, 0, 4, 5, 6);
    assert_eq!(&fb.data[3..6], &[4, 5, 6]);
}

#[test]
fn clear_blackens_visible_pixels_only() {
    let mut fb = screen(2, 2, 3, 4, PixelFormat::Rgb, 200);
    fb.clear();
    for y in 0..2 {
        for x in 0..3 {
            let o = 4 * (3 * y + x);
            if x < 2 {
                assert_eq!(&fb.data[o..o + 4], &[0, 0, 0, 200]);
            } else {
                assert_eq!(&fb.data[o..o + 4], &[200, 200, 200, 200]);
            }
        }
    }
}

#[test]
fn clear_twice_is_clear_once() {
    let mut fb = screen(3, 3, 3, 1, PixelFormat::U8, 5);
    fb.clear();
    let once = fb.data.clone();
    fb.clear();
    assert_eq!(fb.data, once);
    assert!(once.iter().all(|&v| v == 0));
}

#[test]
fn rectangle_fills_half_open_box() {
    let mut fb = screen(5, 4, 5, 1, PixelFormat::U8, 0);
    fb.rectangle(1, 1, 3, 4, 30, 30, 30);
    for y in 0..4 {
        for x in 0..5 {
            let expect = if (1..3).contains(&x) && (1..4).contains(&y) { 30 } else { 0 };
            assert_eq!(fb.data[5 * y + x], expect, "pixel ({}, {})", x, y);
        }
    }
}

#[test]
fn empty_rectangle_changes_nothing() {
    let mut fb = screen(2, 2, 2, 1, PixelFormat::Unknown { red_position: 0, green_position: 8, blue_position: 16 }, 3);
    fb.rectangle(1, 0, 1, 2, 9, 9, 9);
    fb.rectangle(5, 7, 3, 2, 9, 9, 9);
    assert_eq!(fb.data, vec![3, 3, 3, 3]);
}

#[test]
fn custom_draw_colours_each_pixel() {
    let mut fb = screen(4, 4, 4, 3, PixelFormat::Rgb, 0);
    fb.custom_draw(1, 0, 3, 2, |x, y| (x as u8, y as u8, 7));
    for y in 0..4 {
        for x in 0..4 {
            let o = 3 * (4 * y + x);
            let expect: [u8; 3] = if (1..3).contains(&x) && (0..2).contains(&y) { [x as u8, y as u8, 7] } else { [0, 0, 0] };
            assert_eq!(&fb.data[o..o + 3], &expect);
        }
    }
}

/// Columns of a 32-pixel-wide read-out: bands of 4 columns, bit 7 at the left;
/// the separator of bit b covers the first two columns of the band of bit b - 1.
fn readout_column(val: u8, x: usize, sep: u8, on: u8, off: u8) -> u8 {
    let band = 7 - x / 4;
    let in_separator = band < 7 && x % 4 < 2;
    if in_separator {
        sep
    } else if val & (1 << band) != 0 {
        on
    } else {
        off
    }
}

#[test]
fn show_u8_offset_draws_bits_msb_first() {
    let mut fb = screen(32, 30, 32, 1, PixelFormat::U8, 9);
    let val = 0b1010_0110;
    fb.show_u8_offset(val, 5);
    // grey of (0, 255, 128) is 0 + 42 + 85
    for y in 0..30 {
        for x in 0..32 {
            let got = fb.data[32 * y + x];
            if (5..25).contains(&y) {
                assert_eq!(got, readout_column(val, x, 127, 255, 0), "pixel ({}, {})", x, y);
            } else {
                assert_eq!(got, 9);
            }
        }
    }
}

#[test]
fn show_u8_offset_rgb_separator_colour() {
    let mut fb = screen(16, 20, 16, 3, PixelFormat::Rgb, 1);
    fb.show_u8_offset(0xff, 0);
    // bands of 2 columns: bit 7 is columns 0..2; bit 6 is columns 2..4, fully covered
    // by the separator of bit 7
    assert_eq!(&fb.data[0..3], &[255, 255, 255]);
    assert_eq!(&fb.data[6..9], &[0, 255, 128]);
    assert_eq!(&fb.data[3 * 15..3 * 16], &[0, 255, 128]);
}

#[test]
fn show_u8_draws_indicator_then_value() {
    let mut fb = screen(32, 45, 32, 1, PixelFormat::U8, 9);
    fb.show_u8(0x01);
    for y in 0..45 {
        for x in 0..32 {
            let got = fb.data[32 * y + x];
            if y < 5 {
                assert_eq!(got, 9);
            } else if y < 25 {
                let band = 7 - x / 4;
                let v = ((band + 1) * 10) as u8;
                assert_eq!(got, v / 3 + v / 3 + v / 3, "indicator ({}, {})", x, y);
            } else {
                assert_eq!(got, readout_column(0x01, x, 127, 255, 0), "value ({}, {})", x, y);
            }
        }
    }
}

#[test]
fn putchar_draws_nothing() {
    let fb = screen(4, 4, 4, 1, PixelFormat::U8, 3);
    fb.putchar(0, 0, 'A', 255, 255, 255);
    assert!(fb.data.iter().all(|&v| v == 3));
}

#[test]
fn glyph_cells_follow_the_profont_mapping() {
    assert_eq!(glyph_cell(0), (0, 0));
    assert_eq!(glyph_cell(33), (1, 1));
    assert_eq!(glyph_cell(190), (5, 30));
    // ' ' is the first glyph
    assert_eq!(char_cell(' '), (0, 0));
    // 'A' is glyph 0x41 - 0x20 = 33
    assert_eq!(char_cell('A'), (1, 1));
    assert_eq!(char_cell('~'), (2, 30));
    // U+00A0 comes right after '~'
    assert_eq!(char_cell('\u{a0}'), (2, 31));
    // 'é' (U+00E9) is glyph 95 + 0x49 = 168
    assert_eq!(char_cell('é'), (5, 8));
    // characters outside the font fall back to '?' (glyph 31)
    assert_eq!(char_cell('€'), (0, 31));
    assert_eq!(char_cell('\n'), (0, 31));
    assert_eq!(char_cell('?'), (0, 31));
}
