use kernel::{
    drive_ready, lba_registers, sector_bytes, sector_pattern, FrameBuffer, FrameBufferInfo, PacketDecoder,
    PixelFormat,
};

fn grey_screen(width: usize, height: usize) -> FrameBuffer {
    let info = FrameBufferInfo {
        byte_len: width * height,
        width,
        height,
        pixel_format: PixelFormat::U8,
        bytes_per_pixel: 1,
        stride: width,
    };
    FrameBuffer::new(vec![0; width * height], info).unwrap()
}

#[test]
fn drive_ready_needs_drq_and_not_bsy() {
    assert!(drive_ready(0x08));
    assert!(drive_ready(0x58));
    assert!(!drive_ready(0x00));
    assert!(!drive_ready(0x88));
    assert!(!drive_ready(0x80));
    assert!(!drive_ready(0x50));
}

#[test]
fn lba_registers_are_low_bytes() {
    assert_eq!(lba_registers(0x123456), (0x56, 0x34, 0x12));
    assert_eq!(lba_registers(0xAB_CDEF_0102), (0x02, 0x01, 0xEF));
    assert_eq!(lba_registers(1), (1, 0, 0));
}

#[test]
fn sector_bytes_are_little_endian() {
    let mut words = [0u16; 256];
    words[0] = 0x1234;
    words[255] = 0xBEEF;
    let bytes = sector_bytes(&words);
    assert_eq!(bytes.len(), 512);
    assert_eq!(&bytes[0..2], &[0x34, 0x12]);
    assert_eq!(&bytes[510..512], &[0xEF, 0xBE]);
    assert!(bytes[2..510].iter().all(|&b| b == 0));
}

#[test]
fn decoder_emits_every_fifth_byte() {
    let mut d = PacketDecoder::new();
    assert_eq!(d.feed(0x01), None);
    assert_eq!(d.feed(0x02), None);
    assert_eq!(d.feed(0x03), None);
    assert_eq!(d.feed(0x04), None);
    // y = 0x0102, x = 0x0304
    assert_eq!(d.feed(0x99), Some((0x0304, 0x0102, 0x99)));
    assert_eq!(d.index, 0);
    assert_eq!(d.feed(0), None);
    assert_eq!(d.index, 1);
}

#[test]
fn packets_straddle_sector_boundaries() {
    let stream: Vec<u8> = vec![0, 1, 0, 2, 50, 0, 0, 0, 3, 60, 0, 2, 0, 0, 70];
    let mut whole = grey_screen(4, 4);
    let mut d = PacketDecoder::new();
    assert!(whole.packets_fit(&d, &stream));
    whole.draw_packets(&mut d, &stream);
    assert_eq!(d.index, 0);

    let mut pieces = grey_screen(4, 4);
    let mut d = PacketDecoder::new();
    pieces.draw_packets(&mut d, &stream[..7]);
    assert_eq!(d.index, 2);
    pieces.draw_packets(&mut d, &stream[7..13]);
    pieces.draw_packets(&mut d, &stream[13..]);
    assert_eq!(pieces.data, whole.data);

    // grey pixels store the sum of thirds: (2, 1) <- 50, (3, 0) <- 60, (0, 2) <- 70
    assert_eq!(whole.data[4 + 2], 48);
    assert_eq!(whole.data[3], 60);
    assert_eq!(whole.data[8], 69);
}

#[test]
fn packets_fit_rejects_offscreen_packets() {
    let fb = grey_screen(4, 4);
    let d = PacketDecoder::new();
    assert!(!fb.packets_fit(&d, &[0, 4, 0, 0, 1]));
    assert!(!fb.packets_fit(&d, &[0, 0, 1, 0, 1]));
    assert!(fb.packets_fit(&d, &[0, 3, 0, 3, 1, 9, 9]));
    let unknown = FrameBufferInfo {
        byte_len: 4,
        width: 2,
        height: 2,
        pixel_format: PixelFormat::Unknown { red_position: 0, green_position: 0, blue_position: 0 },
        bytes_per_pixel: 1,
        stride: 2,
    };
    let fb = FrameBuffer::new(vec![0; 4], unknown).unwrap();
    assert!(fb.packets_fit(&d, &[0, 0, 0]));
    assert!(!fb.packets_fit(&d, &[0, 0, 0, 0, 0]));
}

#[test]
fn sector_pattern_fills_each_sector_with_its_number() {
    let p = sector_pattern();
    assert_eq!(p.len(), 256 * 512);
    assert_eq!(p[0], 0);
    assert_eq!(p[511], 0);
    assert_eq!(p[512], 1);
    assert_eq!(p[200 * 512 + 17], 200);
    assert_eq!(p[256 * 512 - 1], 255);
}
