//! Framebuffer layout: pixel formats, byte offsets and how a colour is stored.
use vstd::prelude::*;

verus! {

/// Colour format of the pixels in a framebuffer.
#[derive(Clone, Copy, Debug, PartialEq, Eq, Structural)]
pub enum PixelFormat {
    /// One byte red, then one byte green, then one byte blue.
    Rgb,
    /// One byte blue, then one byte green, then one byte red.
    Bgr,
    /// A single grey byte.
    U8,
    /// A format this library cannot draw in.
    Unknown { red_position: u8, green_position: u8, blue_position: u8 },
}

/// Describes the layout and pixel format of a framebuffer.
#[derive(Clone, Copy, Debug)]
pub struct FrameBufferInfo {
    /// The total size in bytes.
    pub byte_len: usize,
    /// The width in pixels.
    pub width: usize,
    /// The height in pixels.
    pub height: usize,
    /// The colour format of each pixel.
    pub pixel_format: PixelFormat,
    /// The number of bytes per pixel.
    pub bytes_per_pixel: usize,
    /// Number of pixels between the start of a line and the start of the next.
    pub stride: usize,
}

/// Number of bytes that drawing one pixel writes in the given format
/// (zero for a format that cannot be drawn in).
pub open spec fn channels(f: PixelFormat) -> nat {
    match f {
        PixelFormat::Rgb => 3,
        PixelFormat::Bgr => 3,
        PixelFormat::U8 => 1,
        PixelFormat::Unknown { .. } => 0,
    }
}

/// The formats that pixels can be drawn in.
pub open spec fn supported(f: PixelFormat) -> bool {
    channels(f) > 0
}

/// The grey level stored for a colour in the single-byte format.
pub open spec fn grey(r: u8, g: u8, b: u8) -> u8 {
    (r / 3 + b / 3 + g / 3) as u8
}

/// The bytes that store the colour `(r, g, b)` in format `f`, first byte first.
pub open spec fn encode(f: PixelFormat, r: u8, g: u8, b: u8) -> Seq<u8> {
    match f {
        PixelFormat::Rgb => seq![r, g, b],
        PixelFormat::Bgr => seq![b, g, r],
        PixelFormat::U8 => seq![grey(r, g, b)],
        PixelFormat::Unknown { .. } => Seq::empty(),
    }
}

impl FrameBufferInfo {
    /// Byte offset of the first byte of pixel `(x, y)`.
    pub open spec fn offset(self, x: int, y: int) -> int {
        self.bytes_per_pixel * (y * self.stride + x)
    }

    /// The pixel column, pixel row and byte-within-pixel that byte `i` belongs to.
    pub open spec fn owner(self, i: int) -> (int, int, int) {
        let p = i / (self.bytes_per_pixel as int);
        (p % (self.stride as int), p / (self.stride as int), i % (self.bytes_per_pixel as int))
    }

    /// A layout in which every visible pixel lies inside `byte_len` bytes and
    /// the bytes written for one pixel fit inside that pixel.
    pub open spec fn layout_ok(self) -> bool {
        &&& self.width <= self.stride
        &&& 1 <= self.bytes_per_pixel
        &&& channels(self.pixel_format) <= self.bytes_per_pixel
        &&& self.stride * self.height * self.bytes_per_pixel <= self.byte_len
    }

    /// Whether `(x, y)` is a visible pixel.
    pub open spec fn visible(self, x: int, y: int) -> bool {
        0 <= x < self.width && 0 <= y < self.height
    }
}

/// `data` with pixel `(x, y)` set to the colour `(r, g, b)`.
pub open spec fn write_pixel(info: FrameBufferInfo, data: Seq<u8>, x: int, y: int, r: u8, g: u8, b: u8) -> Seq<u8> {
    let o = info.offset(x, y);
    Seq::new(
        data.len(),
        |i: int|
            if o <= i < o + channels(info.pixel_format) {
                encode(info.pixel_format, r, g, b)[i - o]
            } else {
                data[i]
            },
    )
}

/// The bytes of pixel `(x, y)` that drawing writes.
pub open spec fn pixel_bytes(info: FrameBufferInfo, data: Seq<u8>, x: int, y: int) -> Seq<u8> {
    let o = info.offset(x, y);
    data.subrange(o, o + channels(info.pixel_format))
}

/// A colour is stored in exactly as many bytes as drawing writes.
pub proof fn lemma_encode_len(f: PixelFormat, r: u8, g: u8, b: u8)
    ensures
        #[trigger] encode(f, r, g, b).len() == channels(f),
{
}

/// A visible pixel's bytes lie inside the buffer, after those of every earlier pixel.
pub proof fn lemma_pixel_in_bounds(info: FrameBufferInfo, x: int, y: int)
    requires
        info.layout_ok(),
        info.visible(x, y),
    ensures
        0 <= y * info.stride <= y * info.stride + x < info.stride * info.height,
        info.stride * info.height <= info.stride * info.height * info.bytes_per_pixel,
        0 <= info.offset(x, y),
        info.offset(x, y) + info.bytes_per_pixel <= info.stride * info.height * info.bytes_per_pixel,
        info.offset(x, y) + channels(info.pixel_format) <= info.byte_len,
{
    let s = info.stride as int;
    let h = info.height as int;
    let b = info.bytes_per_pixel as int;
    assert(0 <= y * s) by (nonlinear_arith)
        requires 0 <= y, 0 <= s;
    assert(y * s + x < s * h) by (nonlinear_arith)
        requires 0 <= x < s, 0 <= y < h;
    assert(b * (y * s + x) + b <= s * h * b) by (nonlinear_arith)
        requires 0 <= y * s + x < s * h, 1 <= b;
    assert(s * h <= s * h * b) by (nonlinear_arith)
        requires 0 <= s, 0 <= h, 1 <= b;
    assert(0 <= b * (y * s + x)) by (nonlinear_arith)
        requires 0 <= y * s + x, 1 <= b;
}

/// A screen at least eight rows high is at most an eighth of its bytes wide.
pub proof fn lemma_width_bound(info: FrameBufferInfo)
    requires
        info.layout_ok(),
        8 <= info.height,
    ensures
        8 * info.width <= info.byte_len,
{
    let s = info.stride as int;
    let h = info.height as int;
    let b = info.bytes_per_pixel as int;
    assert(8 * s <= s * h * b) by (nonlinear_arith)
        requires 0 <= s, 8 <= h, 1 <= b;
}

/// Byte `k` of pixel `(x, y)` belongs to that pixel.
pub proof fn lemma_owner_of_offset(info: FrameBufferInfo, x: int, y: int, k: int)
    requires
        1 <= info.bytes_per_pixel,
        0 <= x < info.stride,
        0 <= y,
        0 <= k < info.bytes_per_pixel,
    ensures
        info.owner(info.offset(x, y) + k) == (x, y, k),
{
    let s = info.stride as int;
    let b = info.bytes_per_pixel as int;
    let p = y * s + x;
    assert(b * p + k == p * b + k) by (nonlinear_arith);
    vstd::arithmetic::div_mod::lemma_fundamental_div_mod_converse(b * p + k, b, p, k);
    vstd::arithmetic::div_mod::lemma_fundamental_div_mod_converse(p, s, y, x);
}

/// Every byte belongs to some pixel slot of the stride-wide grid.
pub proof fn lemma_offset_of_owner(info: FrameBufferInfo, i: int)
    requires
        1 <= info.bytes_per_pixel,
        1 <= info.stride,
        0 <= i,
    ensures
        0 <= info.owner(i).0 < info.stride,
        0 <= info.owner(i).1,
        0 <= info.owner(i).2 < info.bytes_per_pixel,
        i == info.offset(info.owner(i).0, info.owner(i).1) + info.owner(i).2,
{
    let s = info.stride as int;
    let b = info.bytes_per_pixel as int;
    let p = i / b;
    vstd::arithmetic::div_mod::lemma_fundamental_div_mod(i, b);
    vstd::arithmetic::div_mod::lemma_fundamental_div_mod(p, s);
    vstd::arithmetic::div_mod::lemma_mod_bound(i, b);
    vstd::arithmetic::div_mod::lemma_mod_bound(p, s);
    vstd::arithmetic::div_mod::lemma_div_pos_is_pos(i, b);
    vstd::arithmetic::div_mod::lemma_div_pos_is_pos(p, s);
    assert(p == (p / s) * s + p % s) by (nonlinear_arith)
        requires p == s * (p / s) + p % s;
}

/// The bytes of two different visible pixels do not overlap.
pub proof fn lemma_pixels_disjoint(info: FrameBufferInfo, x1: int, y1: int, x2: int, y2: int, i: int)
    requires
        info.layout_ok(),
        info.visible(x1, y1),
        info.visible(x2, y2),
        !(x1 == x2 && y1 == y2),
        info.offset(x1, y1) <= i < info.offset(x1, y1) + channels(info.pixel_format),
    ensures
        !(info.offset(x2, y2) <= i < info.offset(x2, y2) + channels(info.pixel_format)),
{
    let o1 = info.offset(x1, y1);
    let o2 = info.offset(x2, y2);
    lemma_owner_of_offset(info, x1, y1, i - o1);
    assert(o1 + (i - o1) == i);
    if o2 <= i < o2 + channels(info.pixel_format) {
        lemma_owner_of_offset(info, x2, y2, i - o2);
        assert(o2 + (i - o2) == i);
    }
}

/// A pixel reads back the colour last written to it.
pub proof fn lemma_put_then_read(info: FrameBufferInfo, data: Seq<u8>, x: int, y: int, r: u8, g: u8, b: u8)
    requires
        info.layout_ok(),
        data.len() == info.byte_len,
        info.visible(x, y),
    ensures
        pixel_bytes(info, write_pixel(info, data, x, y, r, g, b), x, y) == encode(info.pixel_format, r, g, b),
{
    lemma_pixel_in_bounds(info, x, y);
    lemma_encode_len(info.pixel_format, r, g, b);
    assert(pixel_bytes(info, write_pixel(info, data, x, y, r, g, b), x, y) =~= encode(info.pixel_format, r, g, b));
}

/// Writing a pixel leaves every other visible pixel as it was.
pub proof fn lemma_put_keeps_others(info: FrameBufferInfo, data: Seq<u8>, x: int, y: int, x2: int, y2: int, r: u8, g: u8, b: u8)
    requires
        info.layout_ok(),
        data.len() == info.byte_len,
        info.visible(x, y),
        info.visible(x2, y2),
        !(x == x2 && y == y2),
    ensures
        pixel_bytes(info, write_pixel(info, data, x, y, r, g, b), x2, y2) == pixel_bytes(info, data, x2, y2),
{
    lemma_pixel_in_bounds(info, x2, y2);
    let o2 = info.offset(x2, y2);
    let w = write_pixel(info, data, x, y, r, g, b);
    assert forall|k: int| 0 <= k < channels(info.pixel_format) implies #[trigger] w[o2 + k] == data[o2 + k] by {
        let o = info.offset(x, y);
        if o <= o2 + k < o + channels(info.pixel_format) {
            lemma_pixels_disjoint(info, x, y, x2, y2, o2 + k);
        }
    }
    let pw = pixel_bytes(info, w, x2, y2);
    let pd = pixel_bytes(info, data, x2, y2);
    assert forall|k: int| 0 <= k < channels(info.pixel_format) implies pw[k] == pd[k] by {
        assert(pw[k] == w[o2 + k]);
        assert(pd[k] == data[o2 + k]);
    }
    assert(pw =~= pd);
}

/// Of two writes to the same pixel, the second is what stays.
pub proof fn lemma_last_write_wins(info: FrameBufferInfo, data: Seq<u8>, x: int, y: int, c1: (u8, u8, u8), c2: (u8, u8, u8))
    ensures
        write_pixel(info, write_pixel(info, data, x, y, c1.0, c1.1, c1.2), x, y, c2.0, c2.1, c2.2)
            == write_pixel(info, data, x, y, c2.0, c2.1, c2.2),
{
    assert(write_pixel(info, write_pixel(info, data, x, y, c1.0, c1.1, c1.2), x, y, c2.0, c2.1, c2.2)
        =~= write_pixel(info, data, x, y, c2.0, c2.1, c2.2));
}

/// Writes to two different visible pixels can be made in either order.
pub proof fn lemma_writes_commute(
    info: FrameBufferInfo,
    data: Seq<u8>,
    x1: int,
    y1: int,
    c1: (u8, u8, u8),
    x2: int,
    y2: int,
    c2: (u8, u8, u8),
)
    requires
        info.layout_ok(),
        info.visible(x1, y1),
        info.visible(x2, y2),
        !(x1 == x2 && y1 == y2),
    ensures
        write_pixel(info, write_pixel(info, data, x1, y1, c1.0, c1.1, c1.2), x2, y2, c2.0, c2.1, c2.2)
            == write_pixel(info, write_pixel(info, data, x2, y2, c2.0, c2.1, c2.2), x1, y1, c1.0, c1.1, c1.2),
{
    let a = write_pixel(info, write_pixel(info, data, x1, y1, c1.0, c1.1, c1.2), x2, y2, c2.0, c2.1, c2.2);
    let b = write_pixel(info, write_pixel(info, data, x2, y2, c2.0, c2.1, c2.2), x1, y1, c1.0, c1.1, c1.2);
    assert forall|i: int| 0 <= i < data.len() implies a[i] == b[i] by {
        let o1 = info.offset(x1, y1);
        if o1 <= i < o1 + channels(info.pixel_format) {
            lemma_pixels_disjoint(info, x1, y1, x2, y2, i);
        }
    }
    assert(a =~= b);
}

} // verus!
