use kernel::{decode, frame_diff};

#[test]
fn identical_frames_have_no_diff() {
    let f = vec![0, 50, 150, 250, 7, 7];
    let (codes, diffs) = frame_diff(&f, &f, 2);
    assert_eq!(diffs, 0);
    assert!(codes.is_empty());
}

#[test]
fn thresholds_snap_dark_and_light_samples() {
    // 90 and 100 both snap to 0; 200 and 230 both snap to 255: no difference
    let (codes, diffs) = frame_diff(&[90, 200], &[100, 230], 1);
    assert_eq!(diffs, 0);
    assert!(codes.is_empty());
    // 101 and 150 stay as they are
    let (codes, diffs) = frame_diff(&[101, 150], &[102, 150], 1);
    assert_eq!(diffs, 1);
    assert_eq!(codes, vec![1, 2, 3, 4, 5]);
}

#[test]
fn only_first_sample_of_each_pixel_counts() {
    let this = [0, 255, 255, 255, 0, 0];
    let prev = [0, 0, 0, 255, 0, 0];
    let (_, diffs) = frame_diff(&this, &prev, 3);
    assert_eq!(diffs, 0);
    let (codes, diffs) = frame_diff(&this, &prev, 1);
    assert_eq!(diffs, 2);
    assert_eq!(codes, vec![1, 2, 3, 4, 5, 1, 2, 3, 4, 5]);
}

#[test]
fn diff_is_symmetric() {
    let a = [0, 120, 240, 99, 180];
    let b = [255, 120, 10, 101, 181];
    assert_eq!(frame_diff(&a, &b, 1), frame_diff(&b, &a, 1));
    assert_eq!(frame_diff(&a, &b, 1).1, 4);
}

#[test]
fn empty_frames_with_zero_bytes_per_pixel() {
    assert_eq!(frame_diff(&[], &[], 0), (vec![], 0));
}

fn png_bytes(width: u32, height: u32, color: png::ColorType, data: &[u8]) -> Vec<u8> {
    let mut out = Vec::new();
    {
        let mut enc = png::Encoder::new(&mut out, width, height);
        enc.set_color(color);
        enc.set_depth(png::BitDepth::Eight);
        let mut w = enc.write_header().unwrap();
        w.write_image_data(data).unwrap();
        w.finish().unwrap();
    }
    out
}

#[test]
fn decode_reads_rgb_png() {
    let pixels = [10, 20, 30, 40, 50, 60];
    let file = png_bytes(2, 1, png::ColorType::Rgb, &pixels);
    let (bytes, width, bpp) = decode(&file).unwrap();
    assert_eq!(bytes, pixels.to_vec());
    assert_eq!(width, 2);
    assert_eq!(bpp, 3);
}

#[test]
fn decode_reads_grey_png() {
    let pixels = [1, 2, 3, 4, 5, 6];
    let file = png_bytes(3, 2, png::ColorType::Grayscale, &pixels);
    let (bytes, width, bpp) = decode(&file).unwrap();
    assert_eq!(bytes, pixels.to_vec());
    assert_eq!(width, 3);
    assert_eq!(bpp, 1);
}

#[test]
fn decode_rejects_non_png() {
    assert!(decode(b"not a png file").is_none());
    assert!(decode(&[]).is_none());
}
