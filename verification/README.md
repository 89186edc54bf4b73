# kernel

The drawing and streaming logic of a small bootable demo: a kernel that plays a
video by reading 5-byte pixel packets from a second ATA drive and drawing them
into the boot framebuffer, and the encoder that compares consecutive video
frames to produce that drive image.

- `src/` is verified with Verus:
  - `layout` – pixel formats, framebuffer layout, byte offsets, how a colour is stored;
  - `paint` – the byte-level meaning of drawing a set of pixels, and its laws;
  - `framebuffer` – `FrameBuffer` and its drawing operations;
  - `readout` – the binary read-out strip drawn by `show_u8` / `show_u8_offset`;
  - `font` – glyph positions in the ProFont sheets (through `profont`);
  - `disk` – ATA register values, status polling, sector bytes and packet decoding;
  - `encoder` – PNG frame decoding (through `png`) and frame differencing.
- `app/` is the unverified edge: the encoder and test-pattern command lines, and
  the kernel's boot code, which talks to the I/O ports (`x86_64`) and reads the
  bootloader's framebuffer description (`bootloader_api`).
- `tests/` runs the library on concrete inputs.
