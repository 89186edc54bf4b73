//! A framebuffer held as bytes, and the drawing operations on it.
use vstd::prelude::*;
use crate::layout::{
    channels, lemma_pixel_in_bounds, lemma_width_bound, supported, write_pixel, FrameBufferInfo, PixelFormat,
};
use crate::font::char_cell;
use crate::readout::{
    band_hi, band_lo, bit_order_indicator, bit_readout, bit_shade, indicator_shade, lemma_band_edges,
    lemma_edge_mono, lemma_strip_step, separator_color, strip_color,
};
use crate::paint::{
    drawn_color, in_partial_rect, partial_drawn_color, lemma_paint_nothing, lemma_paint_twice, lemma_paint_same, lemma_write_over_paint, paint,
    overlay, partial_rect_color, rect_color,
};

verus! {

/// A framebuffer: its bytes and their layout.
pub struct FrameBuffer {
    pub data: Vec<u8>,
    pub info: FrameBufferInfo,
}

/// One pixel in blue, green, red byte order.
pub struct Pixel {
    b: u8,
    g: u8,
    r: u8,
}

/// A second framebuffer, for double buffering; it holds nothing yet.
pub struct FrameBufferTwo {}

impl FrameBuffer {
    /// The bytes match the layout: there are `byte_len` of them and every
    /// visible pixel lies inside them.
    pub open spec fn wf(&self) -> bool {
        &&& self.info.layout_ok()
        &&& self.data.len() == self.info.byte_len
    }

    /// Wraps `data` as a framebuffer with layout `info`, or `None` where the
    /// bytes cannot hold that layout.
    pub fn new(data: Vec<u8>, info: FrameBufferInfo) -> (res: Option<FrameBuffer>)
        ensures
            res is Some <==> (info.layout_ok() && data.len() == info.byte_len),
            res matches Some(fb) ==> fb.wf() && fb.data@ == data@ && fb.info == info,
    {
        if data.len() != info.byte_len || info.width > info.stride || info.bytes_per_pixel == 0 {
            return None;
        }
        let ch: usize = match info.pixel_format {
            PixelFormat::Rgb => 3,
            PixelFormat::Bgr => 3,
            PixelFormat::U8 => 1,
            PixelFormat::Unknown { .. } => 0,
        };
        if ch > info.bytes_per_pixel {
            return None;
        }
        match info.stride.checked_mul(info.height) {
            None => {
                proof {
                    assert(info.stride * info.height <= info.stride * info.height * info.bytes_per_pixel) by (nonlinear_arith)
                        requires 1 <= info.bytes_per_pixel, 0 <= info.stride * info.height;
                }
                None
            },
            Some(sh) => match sh.checked_mul(info.bytes_per_pixel) {
                None => {
                    assert(info.stride * info.height * info.bytes_per_pixel == sh * info.bytes_per_pixel);
                    None
                },
                Some(total) => {
                    if total > info.byte_len {
                        None
                    } else {
                        Some(FrameBuffer { data, info })
                    }
                },
            },
        }
    }

    /// Byte offset of the first byte of pixel `(x, y)`.
    pub fn pixel_at(&self, x: usize, y: usize) -> (res: usize)
        requires
            self.wf(),
            x < self.info.width,
            y < self.info.height,
        ensures
            res == self.info.offset(x as int, y as int),
            res + channels(self.info.pixel_format) <= self.data.len(),
    {
        proof {
            lemma_pixel_in_bounds(self.info, x as int, y as int);
        }
        self.info.bytes_per_pixel * ((y * self.info.stride) + x)
    }

    /// Sets pixel `(x, y)` to the colour `(r, g, b)`; in the grey format it
    /// stores `r / 3 + b / 3 + g / 3`.
    pub fn put(&mut self, x: usize, y: usize, r: u8, g: u8, b: u8)
        requires
            old(self).wf(),
            x < old(self).info.width,
            y < old(self).info.height,
            supported(old(self).info.pixel_format),
        ensures
            final(self).wf(),
            final(self).info == old(self).info,
            final(self).data@ == write_pixel(old(self).info, old(self).data@, x as int, y as int, r, g, b),
    {
        let o: usize = self.pixel_at(x, y);
        let ghost d0 = self.data@;
        match self.info.pixel_format {
            PixelFormat::Rgb => {
                self.data.set(o, r);
                self.data.set(o + 1, g);
                self.data.set(o + 2, b);
            },
            PixelFormat::Bgr => {
                self.data.set(o, b);
                self.data.set(o + 1, g);
                self.data.set(o + 2, r);
            },
            PixelFormat::U8 => {
                self.data.set(o, r / 3 + b / 3 + g / 3);
            },
            PixelFormat::Unknown { .. } => {},
        }
        assert(self.data@ =~= write_pixel(self.info, d0, x as int, y as int, r, g, b));
    }

    /// Sets pixel `(x, y)` to the grey level `g`.
    pub fn putg(&mut self, x: usize, y: usize, g: u8)
        requires
            old(self).wf(),
            x < old(self).info.width,
            y < old(self).info.height,
            supported(old(self).info.pixel_format),
        ensures
            final(self).wf(),
            final(self).info == old(self).info,
            final(self).data@ == write_pixel(old(self).info, old(self).data@, x as int, y as int, g, g, g),
    {
        self.put(x, y, g, g, g);
    }

    /// Sets every visible pixel to black.
    pub fn clear(&mut self)
        requires
            old(self).wf(),
            (old(self).info.width > 0 && old(self).info.height > 0) ==> supported(old(self).info.pixel_format),
        ensures
            final(self).wf(),
            final(self).info == old(self).info,
            final(self).data@ == paint(
                old(self).info,
                old(self).data@,
                rect_color(0, 0, old(self).info.width as int, old(self).info.height as int, (0u8, 0u8, 0u8)),
            ),
    {
        let w: usize = self.info.width;
        let h: usize = self.info.height;
        self.rectangle(0, 0, w, h, 0, 0, 0);
    }

    /// Fills the rectangle of columns `x1 .. x2` and rows `y1 .. y2`
    /// (`x2` and `y2` excluded) with the colour `(r, g, b)`.
    pub fn rectangle(&mut self, x1: usize, y1: usize, x2: usize, y2: usize, r: u8, g: u8, b: u8)
        requires
            old(self).wf(),
            (x1 < x2 && y1 < y2) ==> (x2 <= old(self).info.width && y2 <= old(self).info.height
                && supported(old(self).info.pixel_format)),
        ensures
            final(self).wf(),
            final(self).info == old(self).info,
            final(self).data@ == paint(
                old(self).info,
                old(self).data@,
                rect_color(x1 as int, y1 as int, x2 as int, y2 as int, (r, g, b)),
            ),
    {
        let ghost info = self.info;
        let ghost d0 = self.data@;
        let ghost c = (r, g, b);
        proof {
            lemma_paint_nothing(info, d0, partial_rect_color(x1 as int, y1 as int, x2 as int, y1 as int, x1 as int, c));
        }
        let mut y: usize = y1;
        while y < y2
            invariant
                self.wf(),
                self.info == info,
                c == (r, g, b),
                d0.len() == info.byte_len,
                y1 <= y,
                y <= y2 || y == y1,
                (x1 < x2 && y1 < y2) ==> (x2 <= info.width && y2 <= info.height && supported(info.pixel_format)),
                self.data@ == paint(info, d0, partial_rect_color(x1 as int, y1 as int, x2 as int, y as int, x1 as int, c)),
            decreases y2 - y,
        {
            let mut x: usize = x1;
            while x < x2
                invariant
                    self.wf(),
                    self.info == info,
                    c == (r, g, b),
                    d0.len() == info.byte_len,
                    y1 <= y < y2,
                    x1 <= x,
                    x <= x2 || x == x1,
                    (x1 < x2 && y1 < y2) ==> (x2 <= info.width && y2 <= info.height && supported(info.pixel_format)),
                    self.data@ == paint(info, d0, partial_rect_color(x1 as int, y1 as int, x2 as int, y as int, x as int, c)),
                decreases x2 - x,
            {
                self.put(x, y, r, g, b);
                proof {
                    lemma_write_over_paint(
                        info,
                        d0,
                        partial_rect_color(x1 as int, y1 as int, x2 as int, y as int, x as int, c),
                        partial_rect_color(x1 as int, y1 as int, x2 as int, y as int, x as int + 1, c),
                        x as int,
                        y as int,
                        c,
                    );
                }
                x = x + 1;
            }
            proof {
                lemma_paint_same(
                    info,
                    d0,
                    partial_rect_color(x1 as int, y1 as int, x2 as int, y as int, x as int, c),
                    partial_rect_color(x1 as int, y1 as int, x2 as int, y as int + 1, x1 as int, c),
                );
            }
            y = y + 1;
        }
        proof {
            lemma_paint_same(
                info,
                d0,
                partial_rect_color(x1 as int, y1 as int, x2 as int, y as int, x1 as int, c),
                rect_color(x1 as int, y1 as int, x2 as int, y2 as int, c),
            );
        }
    }

    /// Sets each pixel `(x, y)` with `x1 <= x < x2` and `y1 <= y < y2` to the
    /// colour `drawfn(x, y)`, row by row.
    pub fn custom_draw(
        &mut self,
        x1: usize,
        y1: usize,
        x2: usize,
        y2: usize,
        drawfn: impl Fn(usize, usize) -> (u8, u8, u8),
    )
        requires
            old(self).wf(),
            x1 < old(self).info.width,
            x2 < old(self).info.width,
            y1 < old(self).info.height,
            y2 < old(self).info.height,
            x1 <= x2,
            y1 < y2,
            x1 < x2 ==> supported(old(self).info.pixel_format),
            forall|x: usize, y: usize| x1 <= x < x2 && y1 <= y < y2 ==> call_requires(drawfn, (x, y)),
        ensures
            final(self).wf(),
            final(self).info == old(self).info,
            exists|colors: spec_fn(int, int) -> (u8, u8, u8)|
                #![trigger drawn_color(x1 as int, y1 as int, x2 as int, y2 as int, colors)]
                final(self).data@ == paint(old(self).info, old(self).data@, drawn_color(x1 as int, y1 as int, x2 as int, y2 as int, colors))
                && forall|x: usize, y: usize| x1 <= x < x2 && y1 <= y < y2 ==> call_ensures(drawfn, (x, y), #[trigger] colors(x as int, y as int)),
    {
        let ghost info = self.info;
        let ghost d0 = self.data@;
        let ghost mut colors: spec_fn(int, int) -> (u8, u8, u8) = |a: int, b: int| (0u8, 0u8, 0u8);
        proof {
            lemma_paint_nothing(info, d0, partial_drawn_color(x1 as int, y1 as int, x2 as int, y1 as int, x1 as int, colors));
        }
        let mut y: usize = y1;
        while y < y2
            invariant
                self.wf(),
                self.info == info,
                d0.len() == info.byte_len,
                y1 <= y <= y2,
                x1 < info.width, x2 < info.width, y2 < info.height, x1 <= x2,
                x1 < x2 ==> supported(info.pixel_format),
                forall|x: usize, y: usize| x1 <= x < x2 && y1 <= y < y2 ==> call_requires(drawfn, (x, y)),
                forall|a: usize, b: usize| in_partial_rect(x1 as int, y1 as int, x2 as int, y as int, x1 as int, a as int, b as int)
                    ==> call_ensures(drawfn, (a, b), #[trigger] colors(a as int, b as int)),
                self.data@ == paint(info, d0, partial_drawn_color(x1 as int, y1 as int, x2 as int, y as int, x1 as int, colors)),
            decreases y2 - y,
        {
            let mut x: usize = x1;
            while x < x2
                invariant
                    self.wf(),
                    self.info == info,
                    d0.len() == info.byte_len,
                    y1 <= y < y2,
                    x1 <= x <= x2,
                    x1 < info.width, x2 < info.width, y2 < info.height,
                    x1 < x2 ==> supported(info.pixel_format),
                    forall|x: usize, y: usize| x1 <= x < x2 && y1 <= y < y2 ==> call_requires(drawfn, (x, y)),
                    forall|a: usize, b: usize| in_partial_rect(x1 as int, y1 as int, x2 as int, y as int, x as int, a as int, b as int)
                        ==> call_ensures(drawfn, (a, b), #[trigger] colors(a as int, b as int)),
                    self.data@ == paint(info, d0, partial_drawn_color(x1 as int, y1 as int, x2 as int, y as int, x as int, colors)),
                decreases x2 - x,
            {
                let (r, g, b) = drawfn(x, y);
                self.put(x, y, r, g, b);
                proof {
                    let prev = colors;
                    let xi = x as int;
                    let yi = y as int;
                    colors = |a: int, b2: int| if a == xi && b2 == yi { (r, g, b) } else { prev(a, b2) };
                    lemma_paint_same(
                        info,
                        d0,
                        partial_drawn_color(x1 as int, y1 as int, x2 as int, y as int, x as int, prev),
                        partial_drawn_color(x1 as int, y1 as int, x2 as int, y as int, x as int, colors),
                    );
                    lemma_write_over_paint(
                        info,
                        d0,
                        partial_drawn_color(x1 as int, y1 as int, x2 as int, y as int, x as int, colors),
                        partial_drawn_color(x1 as int, y1 as int, x2 as int, y as int, x as int + 1, colors),
                        x as int,
                        y as int,
                        (r, g, b),
                    );
                    assert forall|a: usize, b2: usize| in_partial_rect(x1 as int, y1 as int, x2 as int, y as int, x as int + 1, a as int, b2 as int)
                        implies call_ensures(drawfn, (a, b2), #[trigger] colors(a as int, b2 as int)) by {
                        if !(a == x && b2 == y) {
                            assert(colors(a as int, b2 as int) == prev(a as int, b2 as int));
                        }
                    }
                }
                x = x + 1;
            }
            proof {
                lemma_paint_same(
                    info,
                    d0,
                    partial_drawn_color(x1 as int, y1 as int, x2 as int, y as int, x as int, colors),
                    partial_drawn_color(x1 as int, y1 as int, x2 as int, y as int + 1, x1 as int, colors),
                );
            }
            y = y + 1;
        }
        proof {
            lemma_paint_same(
                info,
                d0,
                partial_drawn_color(x1 as int, y1 as int, x2 as int, y as int, x1 as int, colors),
                drawn_color(x1 as int, y1 as int, x2 as int, y2 as int, colors),
            );
            assert(forall|a: usize, b: usize| x1 <= a < x2 && y1 <= b < y2 ==> in_partial_rect(x1 as int, y1 as int, x2 as int, y as int, x1 as int, a as int, b as int));
        }
    }

    /// Shows the bits of `val` along the bottom of the screen, raised by `offset`
    /// rows: the band of each bit is white when the bit is set and black when it is
    /// clear, most significant bit on the left, with a two-pixel separator in
    /// `(0, 255, 128)` between neighbouring bands. One read-out is 20 rows high.
    pub fn show_u8_offset(&mut self, val: u8, offset: usize)
        requires
            old(self).wf(),
            supported(old(self).info.pixel_format),
            20 + offset <= old(self).info.height,
            7 * old(self).info.width / 8 + 2 <= old(self).info.width,
        ensures
            final(self).wf(),
            final(self).info == old(self).info,
            final(self).data@ == paint(
                old(self).info,
                old(self).data@,
                bit_readout(
                    old(self).info.width as int,
                    old(self).info.height - 20 - offset,
                    old(self).info.height - offset,
                    val,
                ),
            ),
    {
        let ghost info = self.info;
        let ghost d0 = self.data@;
        let ghost w = info.width as int;
        let ghost top = info.height - 20 - offset;
        let ghost bottom = info.height - offset;
        proof {
            lemma_width_bound(info);
            lemma_band_edges(w, 0);
            lemma_paint_nothing(info, d0, strip_color(w, top, bottom, 0, bit_shade(val), true));
        }
        let mut bit: u8 = 0;
        while bit < 8
            invariant
                self.wf(),
                self.info == info,
                d0.len() == info.byte_len,
                bit <= 8,
                w == info.width,
                top == info.height - 20 - offset,
                bottom == info.height - offset,
                supported(info.pixel_format),
                20 + offset <= info.height,
                8 * info.width <= info.byte_len,
                7 * info.width / 8 + 2 <= info.width,
                self.data@ == paint(info, d0, strip_color(w, top, bottom, bit as int, bit_shade(val), true)),
            decreases 8 - bit,
        {
            proof {
                lemma_band_edges(w, bit as int);
                if bit >= 1 { lemma_edge_mono(w, 8 - bit, 7); }
            }
            let ghost before = self.data@;
            let v: u8 = if val & (1u8 << bit) != 0 { 255 } else { 0 };
            self.rectangle(
                (7 - bit) as usize * self.info.width / 8,
                self.info.height - 20 - offset,
                (7 - bit + 1) as usize * self.info.width / 8,
                self.info.height - offset,
                v,
                v,
                v,
            );
            proof {
                lemma_paint_twice(
                    info,
                    d0,
                    strip_color(w, top, bottom, bit as int, bit_shade(val), true),
                    rect_color(band_lo(w, bit as int), top, band_hi(w, bit as int), bottom, bit_shade(val)(bit as int)),
                );
            }
            if bit != 0 {
                self.rectangle(
                    (7 - bit + 1) as usize * self.info.width / 8,
                    self.info.height - 20 - offset,
                    ((7 - bit + 1) as usize * self.info.width / 8) + 2,
                    self.info.height - offset,
                    0,
                    255,
                    128,
                );
                proof {
                    lemma_paint_twice(
                        info,
                        d0,
                        overlay(
                            strip_color(w, top, bottom, bit as int, bit_shade(val), true),
                            rect_color(band_lo(w, bit as int), top, band_hi(w, bit as int), bottom, bit_shade(val)(bit as int)),
                        ),
                        rect_color(band_hi(w, bit as int), top, band_hi(w, bit as int) + 2, bottom, separator_color()),
                    );
                }
            }
            proof {
                lemma_strip_step(w, top, bottom, bit as int, bit_shade(val), true);
                if bit != 0 {
                    lemma_paint_same(
                        info,
                        d0,
                        overlay(
                            overlay(
                                strip_color(w, top, bottom, bit as int, bit_shade(val), true),
                                rect_color(band_lo(w, bit as int), top, band_hi(w, bit as int), bottom, bit_shade(val)(bit as int)),
                            ),
                            rect_color(band_hi(w, bit as int), top, band_hi(w, bit as int) + 2, bottom, separator_color()),
                        ),
                        strip_color(w, top, bottom, bit as int + 1, bit_shade(val), true),
                    );
                } else {
                    lemma_paint_same(
                        info,
                        d0,
                        overlay(
                            strip_color(w, top, bottom, bit as int, bit_shade(val), true),
                            rect_color(band_lo(w, bit as int), top, band_hi(w, bit as int), bottom, bit_shade(val)(bit as int)),
                        ),
                        strip_color(w, top, bottom, bit as int + 1, bit_shade(val), true),
                    );
                }
            }
            bit = bit + 1;
        }
    }

    /// Shows `val` in binary along the bottom of the screen (see `show_u8_offset`),
    /// with a bit-order indicator above it: 20 rows of eight grey bands, the band of
    /// bit `b` in grey `10 * (b + 1)`, so the most significant bit is the lightest.
    pub fn show_u8(&mut self, val: u8)
        requires
            old(self).wf(),
            supported(old(self).info.pixel_format),
            40 <= old(self).info.height,
            7 * old(self).info.width / 8 + 2 <= old(self).info.width,
        ensures
            final(self).wf(),
            final(self).info == old(self).info,
            final(self).data@ == paint(
                old(self).info,
                paint(
                    old(self).info,
                    old(self).data@,
                    bit_order_indicator(old(self).info.width as int, old(self).info.height - 40, old(self).info.height - 20),
                ),
                bit_readout(old(self).info.width as int, old(self).info.height - 20, old(self).info.height as int, val),
            ),
    {
        let ghost info = self.info;
        let ghost d0 = self.data@;
        let ghost w = info.width as int;
        let ghost top = info.height - 40;
        let ghost bottom = info.height - 20;
        proof {
            lemma_width_bound(info);
            lemma_band_edges(w, 0);
            lemma_paint_nothing(info, d0, strip_color(w, top, bottom, 0, indicator_shade(), false));
        }
        let mut bit: u8 = 0;
        while bit < 8
            invariant
                self.wf(),
                self.info == info,
                d0.len() == info.byte_len,
                bit <= 8,
                w == info.width,
                top == info.height - 40,
                bottom == info.height - 20,
                supported(info.pixel_format),
                40 <= info.height,
                8 * info.width <= info.byte_len,
                self.data@ == paint(info, d0, strip_color(w, top, bottom, bit as int, indicator_shade(), false)),
            decreases 8 - bit,
        {
            proof {
                lemma_band_edges(w, bit as int);
            }
            self.rectangle(
                (7 - bit) as usize * self.info.width / 8,
                self.info.height - 40,
                (7 - bit + 1) as usize * self.info.width / 8,
                self.info.height - 20,
                (bit + 1) * 10,
                (bit + 1) * 10,
                (bit + 1) * 10,
            );
            proof {
                lemma_paint_twice(
                    info,
                    d0,
                    strip_color(w, top, bottom, bit as int, indicator_shade(), false),
                    rect_color(band_lo(w, bit as int), top, band_hi(w, bit as int), bottom, indicator_shade()(bit as int)),
                );
                lemma_strip_step(w, top, bottom, bit as int, indicator_shade(), false);
                lemma_paint_same(
                    info,
                    d0,
                    overlay(
                        strip_color(w, top, bottom, bit as int, indicator_shade(), false),
                        rect_color(band_lo(w, bit as int), top, band_hi(w, bit as int), bottom, indicator_shade()(bit as int)),
                    ),
                    strip_color(w, top, bottom, bit as int + 1, indicator_shade(), false),
                );
            }
            bit = bit + 1;
        }
        self.show_u8_offset(val, 0);
    }

    /// Looks up where the glyph of `val` sits in the 18 point ProFont glyph sheet
    /// (see `char_cell`); it draws nothing, so the framebuffer is left as it is.
    pub fn putchar(&self, x: usize, y: usize, val: char, r: u8, g: u8, b: u8) {
        let (char_row, char_col) = char_cell(val);
    }
}

} // verus!
