//! A small framebuffer graphics library for a bootable demo kernel that streams
//! pixel updates from a disk, together with the frame-differencing logic of the
//! encoder that produces that disk image.
use vstd::prelude::*;

pub mod layout;
pub mod paint;
pub mod framebuffer;
pub mod readout;
pub mod font;
pub mod disk;
pub mod encoder;

pub use framebuffer::{FrameBuffer, FrameBufferTwo, Pixel};
pub use layout::{FrameBufferInfo, PixelFormat};
pub use disk::{
    drive_ready, lba_registers, sector_bytes, sector_pattern, PacketDecoder, CTRL_PORT,
    DISABLE_INTERRUPTS, IO_PORT, READ_SECTORS, SELECT_SECOND_DRIVE,
};
pub use encoder::{decode, frame_diff};
pub use font::{char_cell, glyph_cell};

verus! {

} // verus!
