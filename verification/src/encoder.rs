//! The encoder that turns the frames of the video into the disk image: frame
//! decoding and the comparison of consecutive frames.
use vstd::prelude::*;

verus! {

/// The first frame of the PNG file `file`, or `None` where `file` is not a PNG
/// file that can be decoded: its pixel bytes, the image's width, the bytes per
/// pixel, the frame's own width and height (those of the image, unless the file
/// is an animated PNG whose first frame is a smaller sub-frame) and the bit depth
/// of its samples.
pub uninterp spec fn png_first_frame(file: Seq<u8>) -> Option<(Seq<u8>, u32, usize, u32, u32, u8)>;

/// Decodes the first frame of a PNG file held in memory, with `png::Decoder::new`,
/// `Decoder::read_info`, `Reader::output_buffer_size`, `Reader::next_frame`,
/// `OutputInfo::buffer_size`, `Reader::info` (`width`, `bytes_per_pixel`) and the
/// frame's `OutputInfo` (`width`, `height`, `bit_depth`). It returns the whole output
/// buffer and the number of its bytes that the frame fills.
/// The contract claims what png's source shows for a decoder built with
/// `Decoder::new` (no transformations): the frame fills the first `buffer_size`
/// bytes of a buffer of `output_buffer_size` bytes (a sub-frame never exceeds the
/// image); `buffer_size` is the frame's line size times its height, and for samples
/// of 8 or 16 bits a line is the frame's width times the bytes per pixel. Which
/// bytes those are is only named (`png_first_frame`), as a function of the file.
#[verifier::external_body]
fn png_decode_first_frame(file: &[u8]) -> (res: Option<(Vec<u8>, usize, u32, usize, u32, u32, u8)>)
    ensures
        match res {
            Some(f) => {
                &&& f.1 <= f.0.len()
                &&& png_first_frame(file@) == Some((f.0@.subrange(0, f.1 as int), f.2, f.3, f.4, f.5, f.6))
                &&& f.6 >= 8 ==> f.1 == f.4 * f.5 * f.3
            },
            None => png_first_frame(file@) is None,
        },
{
    let mut reader = png::Decoder::new(file).read_info().ok()?;
    let mut buf = vec![0u8; reader.output_buffer_size()];
    let frame = reader.next_frame(&mut buf).ok()?;
    let info = reader.info();
    Some((buf, frame.buffer_size(), info.width, info.bytes_per_pixel(), frame.width, frame.height, frame.bit_depth as u8))
}

/// Decodes a video frame from the bytes of its PNG file: the pixel bytes, the
/// width in pixels and the bytes per pixel. For samples of 8 or 16 bits the pixel
/// bytes are the whole frame: its width times its height times the bytes per pixel.
pub fn decode(file: &[u8]) -> (res: Option<(Vec<u8>, u32, usize)>)
    ensures
        match res {
            Some(frame) => png_first_frame(file@) matches Some(f) && {
                &&& f.0 == frame.0@
                &&& f.1 == frame.1
                &&& f.2 == frame.2
                &&& f.5 >= 8 ==> frame.0.len() == f.3 * f.4 * frame.2
            },
            None => png_first_frame(file@) is None,
        },
{
    match png_decode_first_frame(file) {
        None => None,
        Some((mut buf, size, width, bpp, _frame_width, _frame_height, _depth)) => {
            buf.truncate(size);
            Some((buf, width, bpp))
        },
    }
}

/// A frame whose pixel bytes number its width times its height times the bytes per
/// pixel holds every sample of every pixel: sample `k` of pixel `(x, y)` is byte
/// `(y * width + x) * bpp + k`, inside the bytes.
pub proof fn lemma_whole_frame_holds_every_pixel(len: int, width: int, height: int, bpp: int, x: int, y: int, k: int)
    requires
        len == width * height * bpp,
        0 <= x < width,
        0 <= y < height,
        0 <= k < bpp,
    ensures
        0 <= (y * width + x) * bpp + k < len,
{
    assert(0 <= y * width + x < width * height) by (nonlinear_arith)
        requires 0 <= x < width, 0 <= y < height;
    assert(0 <= (y * width + x) * bpp + k < len) by (nonlinear_arith)
        requires 0 <= y * width + x < width * height, 0 <= k < bpp, len == width * height * bpp;
}

/// A sample snapped to black when at most 100, to white when at least 200.
pub open spec fn threshold(v: u8) -> u8 {
    if v <= 100 {
        0
    } else if v >= 200 {
        255
    } else {
        v
    }
}

/// Whether the first sample of pixel `i / bypp` (a byte index `i` that is a
/// multiple of `bypp`) differs between the frames once both are snapped.
pub open spec fn sample_differs(this: Seq<u8>, prev: Seq<u8>, bypp: int, i: int) -> bool {
    i % bypp == 0 && threshold(this[i]) != threshold(prev[i])
}

/// Number of differing samples among the first `n` bytes.
pub open spec fn count_diffs(this: Seq<u8>, prev: Seq<u8>, bypp: int, n: int) -> nat
    decreases n,
{
    if n <= 0 {
        0
    } else {
        count_diffs(this, prev, bypp, n - 1) + if sample_differs(this, prev, bypp, n - 1) { 1nat } else { 0nat }
    }
}

/// The codes written for a frame with `diffs` differing samples: `1, 2, 3, 4, 5` per sample.
pub open spec fn diff_codes(diffs: nat) -> Seq<u8> {
    Seq::new(5 * diffs, |k: int| (k % 5 + 1) as u8)
}

/// At most one differing sample per byte.
pub proof fn lemma_count_bound(this: Seq<u8>, prev: Seq<u8>, bypp: int, n: int)
    requires
        0 <= n,
    ensures
        count_diffs(this, prev, bypp, n) <= n,
    decreases n,
{
    if n > 0 {
        lemma_count_bound(this, prev, bypp, n - 1);
    }
}

/// Compares frame `this` with the frame before it, `prev`, on the first sample of
/// every pixel (`bypp` bytes per pixel): returns five code bytes `1, 2, 3, 4, 5`
/// for every sample that differs once both are snapped (see `threshold`), and the
/// number of such samples.
pub fn frame_diff(this: &[u8], prev: &[u8], bypp: usize) -> (res: (Vec<u8>, u64))
    requires
        this.len() == prev.len(),
        bypp > 0 || this.len() == 0,
    ensures
        res.1 == count_diffs(this@, prev@, bypp as int, this.len() as int),
        res.0@ == diff_codes(res.1 as nat),
{
    let mut codes: Vec<u8> = Vec::new();
    let mut diffs: u64 = 0;
    let mut i: usize = 0;
    while i < this.len()
        invariant
            i <= this.len(),
            this.len() == prev.len(),
            bypp > 0 || this.len() == 0,
            diffs == count_diffs(this@, prev@, bypp as int, i as int),
            diffs <= i,
            codes@ == diff_codes(diffs as nat),
        decreases this.len() - i,
    {
        proof {
            lemma_count_bound(this@, prev@, bypp as int, i as int + 1);
        }
        if i % bypp != 0 {
            i = i + 1;
            continue;
        }
        let mut t: u8 = this[i];
        let mut p: u8 = prev[i];
        if t <= 100 {
            t = 0;
        }
        if p <= 100 {
            p = 0;
        }
        if t >= 200 {
            t = 255;
        }
        if p >= 200 {
            p = 255;
        }
        if t != p {
            codes.push(1);
            codes.push(2);
            codes.push(3);
            codes.push(4);
            codes.push(5);
            diffs = diffs + 1;
            assert(codes@ =~= diff_codes(diffs as nat));
        }
        i = i + 1;
    }
    (codes, diffs)
}

/// Comparing a frame with itself finds no difference.
pub proof fn lemma_no_diff_with_itself(frame: Seq<u8>, bypp: int, n: int)
    requires
        0 <= n,
    ensures
        count_diffs(frame, frame, bypp, n) == 0,
    decreases n,
{
    if n > 0 {
        lemma_no_diff_with_itself(frame, bypp, n - 1);
    }
}

/// Comparing `a` with `b` finds as many differences as comparing `b` with `a`.
pub proof fn lemma_diff_symmetric(a: Seq<u8>, b: Seq<u8>, bypp: int, n: int)
    requires
        0 <= n,
    ensures
        count_diffs(a, b, bypp, n) == count_diffs(b, a, bypp, n),
    decreases n,
{
    if n > 0 {
        lemma_diff_symmetric(a, b, bypp, n - 1);
    }
}

} // verus!
