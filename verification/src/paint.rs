//! What drawing does to the bytes of a framebuffer: a byte-level picture of
//! "these pixels now hold these colours, every other byte is as it was".
use vstd::prelude::*;
use crate::layout::{channels, encode, lemma_encode_len, lemma_offset_of_owner, lemma_owner_of_offset, lemma_pixel_in_bounds, pixel_bytes, write_pixel, FrameBufferInfo};

verus! {

/// `data` with every pixel `(x, y)` for which `color(x, y)` is `Some(c)` set to `c`;
/// bytes of other pixels, and bytes that no drawing writes, keep their value.
pub open spec fn paint(info: FrameBufferInfo, data: Seq<u8>, color: spec_fn(int, int) -> Option<(u8, u8, u8)>) -> Seq<u8> {
    Seq::new(
        data.len(),
        |i: int|
            {
                let o = info.owner(i);
                match color(o.0, o.1) {
                    Some(c) => if o.2 < channels(info.pixel_format) {
                        encode(info.pixel_format, c.0, c.1, c.2)[o.2]
                    } else {
                        data[i]
                    },
                    None => data[i],
                }
            },
    )
}

/// The colouring of the axis-aligned rectangle `[x1, x2) x [y1, y2)` in one colour.
pub open spec fn rect_color(x1: int, y1: int, x2: int, y2: int, c: (u8, u8, u8)) -> spec_fn(int, int) -> Option<(u8, u8, u8)> {
    |x: int, y: int| if x1 <= x < x2 && y1 <= y < y2 { Some(c) } else { None }
}

/// Whether pixel `(a, b)` has been reached when a rectangle with columns `x1 .. x2`
/// is drawn row by row from row `y1`: every full row before `y`, and row `y` up to column `x`.
pub open spec fn in_partial_rect(x1: int, y1: int, x2: int, y: int, x: int, a: int, b: int) -> bool {
    (x1 <= a < x2 && y1 <= b < y) || (b == y && x1 <= a < x)
}

/// The part of a one-colour rectangle drawn so far (see `in_partial_rect`).
pub open spec fn partial_rect_color(x1: int, y1: int, x2: int, y: int, x: int, c: (u8, u8, u8)) -> spec_fn(int, int) -> Option<(u8, u8, u8)> {
    |a: int, b: int| if in_partial_rect(x1, y1, x2, y, x, a, b) { Some(c) } else { None }
}

/// Each pixel of the rectangle `[x1, x2) x [y1, y2)` in its own colour `colors(x, y)`.
pub open spec fn drawn_color(x1: int, y1: int, x2: int, y2: int, colors: spec_fn(int, int) -> (u8, u8, u8)) -> spec_fn(int, int) -> Option<(u8, u8, u8)> {
    |a: int, b: int| if x1 <= a < x2 && y1 <= b < y2 { Some(colors(a, b)) } else { None }
}

/// The part of a many-coloured rectangle drawn so far (see `in_partial_rect`).
pub open spec fn partial_drawn_color(x1: int, y1: int, x2: int, y: int, x: int, colors: spec_fn(int, int) -> (u8, u8, u8)) -> spec_fn(int, int) -> Option<(u8, u8, u8)> {
    |a: int, b: int| if in_partial_rect(x1, y1, x2, y, x, a, b) { Some(colors(a, b)) } else { None }
}

/// Colouring `g` drawn over colouring `f`.
pub open spec fn overlay(f: spec_fn(int, int) -> Option<(u8, u8, u8)>, g: spec_fn(int, int) -> Option<(u8, u8, u8)>) -> spec_fn(int, int) -> Option<(u8, u8, u8)> {
    |a: int, b: int| match g(a, b) {
        Some(c) => Some(c),
        None => f(a, b),
    }
}

/// Painting nothing leaves the bytes as they are.
pub proof fn lemma_paint_nothing(info: FrameBufferInfo, data: Seq<u8>, f: spec_fn(int, int) -> Option<(u8, u8, u8)>)
    requires
        forall|a: int, b: int| #[trigger] f(a, b) == None::<(u8, u8, u8)>,
    ensures
        paint(info, data, f) == data,
{
    assert(paint(info, data, f) =~= data);
}

/// Two colourings that agree on every pixel paint the same bytes.
pub proof fn lemma_paint_same(info: FrameBufferInfo, data: Seq<u8>, f: spec_fn(int, int) -> Option<(u8, u8, u8)>, g: spec_fn(int, int) -> Option<(u8, u8, u8)>)
    requires
        forall|a: int, b: int| #[trigger] f(a, b) == g(a, b),
    ensures
        paint(info, data, f) == paint(info, data, g),
{
    assert(paint(info, data, f) =~= paint(info, data, g));
}

/// Writing one visible pixel over a painted buffer paints that pixel too.
pub proof fn lemma_write_over_paint(
    info: FrameBufferInfo,
    data: Seq<u8>,
    f: spec_fn(int, int) -> Option<(u8, u8, u8)>,
    g: spec_fn(int, int) -> Option<(u8, u8, u8)>,
    x: int,
    y: int,
    c: (u8, u8, u8),
)
    requires
        info.layout_ok(),
        data.len() == info.byte_len,
        info.visible(x, y),
        g(x, y) == Some(c),
        forall|a: int, b: int| !(a == x && b == y) ==> #[trigger] g(a, b) == f(a, b),
    ensures
        write_pixel(info, paint(info, data, f), x, y, c.0, c.1, c.2) == paint(info, data, g),
{
    let lhs = write_pixel(info, paint(info, data, f), x, y, c.0, c.1, c.2);
    let rhs = paint(info, data, g);
    let o = info.offset(x, y);
    let ch = channels(info.pixel_format) as int;
    assert forall|i: int| 0 <= i < data.len() implies lhs[i] == rhs[i] by {
        if o <= i < o + ch {
            lemma_owner_of_offset(info, x, y, i - o);
            assert(o + (i - o) == i);
        } else {
            lemma_offset_of_owner(info, i);
            let w = info.owner(i);
            if w.0 == x && w.1 == y && w.2 < ch {
                assert(i == o + w.2);
                assert(false);
            }
        }
    }
    assert(lhs =~= rhs);
}

/// Painting is the same as writing pixel by pixel, applied to every painted pixel:
/// a painted visible pixel holds its colour.
pub proof fn lemma_paint_pixel(info: FrameBufferInfo, data: Seq<u8>, f: spec_fn(int, int) -> Option<(u8, u8, u8)>, x: int, y: int)
    requires
        info.layout_ok(),
        data.len() == info.byte_len,
        info.visible(x, y),
    ensures
        pixel_bytes(info, paint(info, data, f), x, y) == (match f(x, y) {
            Some(c) => encode(info.pixel_format, c.0, c.1, c.2),
            None => pixel_bytes(info, data, x, y),
        }),
{
    let o = info.offset(x, y);
    let ch = channels(info.pixel_format) as int;
    lemma_pixel_in_bounds(info, x, y);
    let p = paint(info, data, f);
    assert forall|k: int| 0 <= k < ch implies #[trigger] p[o + k] == (match f(x, y) {
        Some(c) => encode(info.pixel_format, c.0, c.1, c.2)[k],
        None => data[o + k],
    }) by {
        lemma_owner_of_offset(info, x, y, k);
    }
    let pb = pixel_bytes(info, p, x, y);
    assert(pb.len() == ch);
    match f(x, y) {
        Some(c) => {
            let e = encode(info.pixel_format, c.0, c.1, c.2);
            lemma_encode_len(info.pixel_format, c.0, c.1, c.2);
            assert forall|k: int| 0 <= k < ch implies pb[k] == e[k] by {
                assert(pb[k] == p[o + k]);
            }
            assert(pb =~= e);
        },
        None => {
            let pd = pixel_bytes(info, data, x, y);
            assert forall|k: int| 0 <= k < ch implies pb[k] == pd[k] by {
                assert(pb[k] == p[o + k]);
            }
            assert(pb =~= pd);
        },
    }
}

/// Painting twice is painting once with the second colouring drawn over the first.
pub proof fn lemma_paint_twice(info: FrameBufferInfo, data: Seq<u8>, f: spec_fn(int, int) -> Option<(u8, u8, u8)>, g: spec_fn(int, int) -> Option<(u8, u8, u8)>)
    ensures
        paint(info, paint(info, data, f), g) == paint(info, data, overlay(f, g)),
{
    assert(paint(info, paint(info, data, f), g) =~= paint(info, data, overlay(f, g)));
}

/// Painting the same colouring twice is painting it once.
pub proof fn lemma_paint_idempotent(info: FrameBufferInfo, data: Seq<u8>, f: spec_fn(int, int) -> Option<(u8, u8, u8)>)
    ensures
        paint(info, paint(info, data, f), f) == paint(info, data, f),
{
    assert(paint(info, paint(info, data, f), f) =~= paint(info, data, f));
}

/// Writing one visible pixel is filling the one-pixel rectangle at it.
pub proof fn lemma_put_is_unit_rectangle(info: FrameBufferInfo, data: Seq<u8>, x: int, y: int, c: (u8, u8, u8))
    requires
        info.layout_ok(),
        data.len() == info.byte_len,
        info.visible(x, y),
    ensures
        write_pixel(info, data, x, y, c.0, c.1, c.2) == paint(info, data, rect_color(x, y, x + 1, y + 1, c)),
{
    let none: spec_fn(int, int) -> Option<(u8, u8, u8)> = |a: int, b: int| None;
    lemma_paint_nothing(info, data, none);
    lemma_write_over_paint(info, data, none, rect_color(x, y, x + 1, y + 1, c), x, y, c);
}

/// After clearing, every visible pixel is black: all of its bytes are zero.
pub proof fn lemma_clear_makes_black(info: FrameBufferInfo, data: Seq<u8>, x: int, y: int)
    requires
        info.layout_ok(),
        data.len() == info.byte_len,
        info.visible(x, y),
    ensures
        pixel_bytes(info, paint(info, data, rect_color(0, 0, info.width as int, info.height as int, (0u8, 0u8, 0u8))), x, y)
            == Seq::new(channels(info.pixel_format), |k: int| 0u8),
{
    lemma_paint_pixel(info, data, rect_color(0, 0, info.width as int, info.height as int, (0u8, 0u8, 0u8)), x, y);
    assert(encode(info.pixel_format, 0u8, 0u8, 0u8) =~= Seq::new(channels(info.pixel_format), |k: int| 0u8));
}

/// A filled rectangle shows its colour at each of its visible pixels, and every
/// visible pixel outside it keeps its bytes.
pub proof fn lemma_rectangle_pixels(
    info: FrameBufferInfo,
    data: Seq<u8>,
    x1: int,
    y1: int,
    x2: int,
    y2: int,
    c: (u8, u8, u8),
    x: int,
    y: int,
)
    requires
        info.layout_ok(),
        data.len() == info.byte_len,
        info.visible(x, y),
    ensures
        (x1 <= x < x2 && y1 <= y < y2) ==> pixel_bytes(info, paint(info, data, rect_color(x1, y1, x2, y2, c)), x, y)
            == encode(info.pixel_format, c.0, c.1, c.2),
        !(x1 <= x < x2 && y1 <= y < y2) ==> pixel_bytes(info, paint(info, data, rect_color(x1, y1, x2, y2, c)), x, y)
            == pixel_bytes(info, data, x, y),
{
    lemma_paint_pixel(info, data, rect_color(x1, y1, x2, y2, c), x, y);
}

} // verus!
