//! The binary read-out strip: eight side-by-side bands along the bottom of the
//! screen, one per bit of a byte, most significant bit on the left.
use vstd::prelude::*;
use crate::layout::{encode, pixel_bytes, FrameBufferInfo};
use crate::paint::{lemma_paint_pixel, overlay, paint, rect_color};

verus! {

/// The colour of the two-pixel separators drawn at the right edge of bands 1 to 7.
pub open spec fn separator_color() -> (u8, u8, u8) {
    (0u8, 255u8, 128u8)
}

/// Left edge of the band of bit `b` in a strip `w` pixels wide.
pub open spec fn band_lo(w: int, b: int) -> int {
    (7 - b) * w / 8
}

/// Right edge (excluded) of the band of bit `b` in a strip `w` pixels wide.
pub open spec fn band_hi(w: int, b: int) -> int {
    (8 - b) * w / 8
}

/// Whether column `x` is covered by the separator of one of the bits `1 .. k`.
pub open spec fn on_separator_below(w: int, x: int, k: int) -> bool {
    exists|b: int| 1 <= b < k && #[trigger] band_hi(w, b) <= x < band_hi(w, b) + 2
}

/// The bit whose band holds column `x`.
pub open spec fn column_bit(w: int, x: int) -> int {
    choose|b: int| 0 <= b < 8 && #[trigger] band_lo(w, b) <= x < band_hi(w, b)
}

/// Whether bit `b` of `val` is set.
pub open spec fn bit_set(val: u8, b: int) -> bool {
    val & (1u8 << (b as u8)) != 0
}

/// White for a set bit, black for a clear one.
pub open spec fn bit_shade(val: u8) -> spec_fn(int) -> (u8, u8, u8) {
    |b: int| if bit_set(val, b) { (255u8, 255u8, 255u8) } else { (0u8, 0u8, 0u8) }
}

/// The grey level `10 * (b + 1)` of the band of bit `b` in the bit-order indicator.
pub open spec fn indicator_shade() -> spec_fn(int) -> (u8, u8, u8) {
    |b: int| {
        let v = (10 * (b + 1)) as u8;
        (v, v, v)
    }
}

/// The strip in rows `top .. bottom` once the bands of bits `0 .. k` are drawn, each
/// band of bit `b` in `shade(b)`, with the separators of bits `1 .. k` over them
/// when `separators` holds.
pub open spec fn strip_color(
    w: int,
    top: int,
    bottom: int,
    k: int,
    shade: spec_fn(int) -> (u8, u8, u8),
    separators: bool,
) -> spec_fn(int, int) -> Option<(u8, u8, u8)> {
    |x: int, y: int|
        if top <= y < bottom && band_hi(w, k) <= x < w {
            if separators && on_separator_below(w, x, k) {
                Some(separator_color())
            } else {
                Some(shade(column_bit(w, x)))
            }
        } else {
            None
        }
}

/// The read-out of `val` in rows `top .. bottom` of a screen `w` pixels wide: every
/// column in the band of a bit shows that bit (white when set, black when clear),
/// except the columns of a separator.
pub open spec fn bit_readout(w: int, top: int, bottom: int, val: u8) -> spec_fn(int, int) -> Option<(u8, u8, u8)> {
    strip_color(w, top, bottom, 8, bit_shade(val), true)
}

/// The bit-order indicator in rows `top .. bottom`: the band of bit `b` in grey `10 * (b + 1)`.
pub open spec fn bit_order_indicator(w: int, top: int, bottom: int) -> spec_fn(int, int) -> Option<(u8, u8, u8)> {
    strip_color(w, top, bottom, 8, indicator_shade(), false)
}

/// Band edges grow with the band index counted from the left.
pub proof fn lemma_edge_mono(w: int, m: int, n: int)
    requires
        0 <= w,
        m <= n,
    ensures
        m * w / 8 <= n * w / 8,
{
    vstd::arithmetic::mul::lemma_mul_inequality(m, n, w);
    vstd::arithmetic::div_mod::lemma_div_is_ordered(m * w, n * w, 8);
}

/// The bands of the eight bits tile `[0, w)`: band 7 starts at 0, band 0 ends at `w`,
/// and each band ends where the band to its right begins.
pub proof fn lemma_band_edges(w: int, b: int)
    requires
        0 <= w,
        0 <= b < 8,
    ensures
        band_hi(w, 0) == w,
        band_lo(w, 7) == 0,
        band_lo(w, b) <= band_hi(w, b) <= w,
        0 <= band_lo(w, b),
        b + 1 < 8 ==> band_hi(w, b + 1) == band_lo(w, b),
{
    assert(8 * w / 8 == w) by {
        vstd::arithmetic::div_mod::lemma_div_multiples_vanish(w, 8);
    }
    lemma_edge_mono(w, 7 - b, 8 - b);
    lemma_edge_mono(w, 8 - b, 8);
    lemma_edge_mono(w, 0, 7 - b);
}

/// A column lies in the band of at most one bit.
pub proof fn lemma_column_bit(w: int, x: int, k: int)
    requires
        0 <= w,
        0 <= k < 8,
        band_lo(w, k) <= x < band_hi(w, k),
    ensures
        column_bit(w, x) == k,
{
    let b = column_bit(w, x);
    assert(0 <= b < 8 && band_lo(w, b) <= x < band_hi(w, b));
    if b < k {
        lemma_edge_mono(w, 8 - k, 7 - b);
    } else if b > k {
        lemma_edge_mono(w, 8 - b, 7 - k);
    }
}

/// Drawing the band of bit `k` (and its separator, when `separators` holds and
/// `k >= 1`) over the strip drawn for bits `0 .. k` gives the strip for bits `0 .. k + 1`.
pub proof fn lemma_strip_step(
    w: int,
    top: int,
    bottom: int,
    k: int,
    shade: spec_fn(int) -> (u8, u8, u8),
    separators: bool,
)
    requires
        0 <= w,
        0 <= k < 8,
        separators ==> band_hi(w, 1) + 2 <= w,
    ensures
        forall|x: int, y: int| #![trigger strip_color(w, top, bottom, k + 1, shade, separators)(x, y)]
            strip_color(w, top, bottom, k + 1, shade, separators)(x, y) == (if separators && k >= 1 {
                overlay(
                    overlay(strip_color(w, top, bottom, k, shade, separators), rect_color(band_lo(w, k), top, band_hi(w, k), bottom, shade(k))),
                    rect_color(band_hi(w, k), top, band_hi(w, k) + 2, bottom, separator_color()),
                )
            } else {
                overlay(strip_color(w, top, bottom, k, shade, separators), rect_color(band_lo(w, k), top, band_hi(w, k), bottom, shade(k)))
            })(x, y),
{
    lemma_band_edges(w, k);
    if k >= 1 {
        lemma_edge_mono(w, 8 - k, 7);
    }
    assert forall|x: int, y: int| #![trigger strip_color(w, top, bottom, k + 1, shade, separators)(x, y)]
        strip_color(w, top, bottom, k + 1, shade, separators)(x, y) == (if separators && k >= 1 {
            overlay(
                overlay(strip_color(w, top, bottom, k, shade, separators), rect_color(band_lo(w, k), top, band_hi(w, k), bottom, shade(k))),
                rect_color(band_hi(w, k), top, band_hi(w, k) + 2, bottom, separator_color()),
            )
        } else {
            overlay(strip_color(w, top, bottom, k, shade, separators), rect_color(band_lo(w, k), top, band_hi(w, k), bottom, shade(k)))
        })(x, y) by {
        let in_sep = separators && k >= 1 && band_hi(w, k) <= x < band_hi(w, k) + 2;
        let in_band = band_lo(w, k) <= x < band_hi(w, k);
        if top <= y < bottom {
            if in_sep {
                assert(on_separator_below(w, x, k + 1));
            } else if in_band {
                lemma_column_bit(w, x, k);
                if separators && on_separator_below(w, x, k + 1) {
                    let b = choose|b: int| 1 <= b < k + 1 && #[trigger] band_hi(w, b) <= x < band_hi(w, b) + 2;
                    lemma_edge_mono(w, 8 - k, 8 - b);
                    assert(false);
                }
            } else {
                if separators {
                    if on_separator_below(w, x, k + 1) {
                        let b = choose|b: int| 1 <= b < k + 1 && #[trigger] band_hi(w, b) <= x < band_hi(w, b) + 2;
                        assert(b != k);
                        assert(on_separator_below(w, x, k));
                    }
                    if on_separator_below(w, x, k) {
                        let b = choose|b: int| 1 <= b < k && #[trigger] band_hi(w, b) <= x < band_hi(w, b) + 2;
                        assert(on_separator_below(w, x, k + 1));
                    }
                }
            }
        }
    }
}

/// In the read-out of `val`, a visible pixel in the band of bit `b` and off the
/// separators is white when bit `b` of `val` is set and black when it is clear; a
/// visible pixel on the separator of a bit from 1 to 7 is in the separator colour.
pub proof fn lemma_readout_pixel(info: FrameBufferInfo, data: Seq<u8>, top: int, bottom: int, val: u8, b: int, x: int, y: int)
    requires
        info.layout_ok(),
        data.len() == info.byte_len,
        info.visible(x, y),
        top <= y < bottom,
        0 <= b < 8,
    ensures
        (band_lo(info.width as int, b) <= x < band_hi(info.width as int, b) && !on_separator_below(info.width as int, x, 8))
            ==> pixel_bytes(info, paint(info, data, bit_readout(info.width as int, top, bottom, val)), x, y)
                == (if bit_set(val, b) {
                    encode(info.pixel_format, 255u8, 255u8, 255u8)
                } else {
                    encode(info.pixel_format, 0u8, 0u8, 0u8)
                }),
        (1 <= b && band_hi(info.width as int, b) <= x < band_hi(info.width as int, b) + 2)
            ==> pixel_bytes(info, paint(info, data, bit_readout(info.width as int, top, bottom, val)), x, y)
                == encode(info.pixel_format, 0u8, 255u8, 128u8),
{
    let w = info.width as int;
    lemma_paint_pixel(info, data, bit_readout(w, top, bottom, val), x, y);
    assert(band_hi(w, 8) == 0);
    if band_lo(w, b) <= x < band_hi(w, b) {
        lemma_column_bit(w, x, b);
    }
    if 1 <= b && band_hi(w, b) <= x < band_hi(w, b) + 2 {
        assert(on_separator_below(w, x, 8));
    }
}

} // verus!
