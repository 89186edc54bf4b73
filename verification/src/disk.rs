//! Streaming pixel updates from the second ATA drive: the register values the
//! kernel sends, the status test it polls, and the decoding of sector bytes
//! into 5-byte pixel packets `[YH, YL, XH, XL, VALUE]` that are drawn in grey.
use vstd::prelude::*;
use crate::framebuffer::FrameBuffer;
use crate::layout::{supported, write_pixel, FrameBufferInfo};
use crate::readout::bit_set;

verus! {

/// First I/O port of the primary ATA bus.
pub const IO_PORT: u16 = 0x1F0;

/// Device control / alternate status port of the primary ATA bus.
pub const CTRL_PORT: u16 = 0x3F6;

/// Drive/head register value that selects the second drive of the bus.
pub const SELECT_SECOND_DRIVE: u8 = 0x10;

/// Device control value that disables the drive's interrupts.
pub const DISABLE_INTERRUPTS: u8 = 0x02;

/// The READ SECTORS command.
pub const READ_SECTORS: u8 = 0x20;

/// Number of 16-bit words in one sector.
pub const SECTOR_WORDS: usize = 256;

/// Number of bytes in one pixel packet.
pub const PACKET_LEN: usize = 5;

/// Whether a status byte says the drive has data for us: BSY (bit 7) clear and
/// DRQ (bit 3) set.
pub fn drive_ready(status: u8) -> (res: bool)
    ensures
        res == (!bit_set(status, 7) && bit_set(status, 3)),
{
    proof {
        assert((status & 0x80 == 0) == !(status & (1u8 << 7u8) != 0)) by (bit_vector);
        assert((status & 0x08 == 0x08) == (status & (1u8 << 3u8) != 0)) by (bit_vector);
    }
    status & 0x80 == 0 && status & 0x08 == 0x08
}

/// The sector number, cylinder low and cylinder high register values that
/// address block `lba`: its three low bytes, lowest first.
pub fn lba_registers(lba: u64) -> (res: (u8, u8, u8))
    ensures
        res.0 == lba % 256,
        res.1 == (lba / 256) % 256,
        res.2 == (lba / 65536) % 256,
{
    proof {
        assert((lba as u8) == lba % 256) by (bit_vector);
        assert(((lba >> 8u64) as u8) == (lba / 256) % 256) by (bit_vector);
        assert(((lba >> 16u64) as u8) == (lba / 65536) % 256) by (bit_vector);
    }
    (lba as u8, (lba >> 8) as u8, (lba >> 16) as u8)
}

/// The bytes of a sector read as 16-bit words, each word low byte first.
pub fn sector_bytes(words: &[u16; 256]) -> (res: Vec<u8>)
    ensures
        res.len() == 2 * SECTOR_WORDS,
        forall|i: int| 0 <= i < SECTOR_WORDS ==> #[trigger] res@[2 * i] == words@[i] % 256
            && res@[2 * i + 1] == words@[i] / 256,
{
    let mut res: Vec<u8> = Vec::new();
    let mut i: usize = 0;
    while i < SECTOR_WORDS
        invariant
            i <= SECTOR_WORDS,
            res.len() == 2 * i,
            forall|k: int| 0 <= k < i ==> #[trigger] res@[2 * k] == words@[k] % 256
                && res@[2 * k + 1] == words@[k] / 256,
        decreases SECTOR_WORDS - i,
    {
        let w: u16 = words[i];
        proof {
            assert((w as u8) == w % 256) by (bit_vector);
            assert(((w >> 8u16) as u8) == w / 256) by (bit_vector);
        }
        let ghost prev = res@;
        res.push(w as u8);
        res.push((w >> 8) as u8);
        proof {
            assert(res@ == prev.push(w as u8).push((w >> 8) as u8));
            assert forall|k: int| 0 <= k < i + 1 implies #[trigger] res@[2 * k] == words@[k] % 256
                && res@[2 * k + 1] == words@[k] / 256 by {
                if k < i {
                    assert(res@[2 * k] == prev[2 * k]);
                    assert(res@[2 * k + 1] == prev[2 * k + 1]);
                } else {
                    assert(res@[2 * k] == w as u8);
                    assert(res@[2 * k + 1] == (w >> 8) as u8);
                }
            }
        }
        i = i + 1;
    }
    res
}

/// The pixel write `(x, y, value)` that a 5-byte packet `[YH, YL, XH, XL, VALUE]` asks for.
pub open spec fn packet_write(p: Seq<u8>) -> (int, int, u8) {
    (p[2] * 256 + p[3], p[0] * 256 + p[1], p[4])
}

/// The pixel writes of the complete packets at the start of `s`, in order.
pub open spec fn packet_writes(s: Seq<u8>) -> Seq<(int, int, u8)> {
    Seq::new(s.len() / 5, |j: int| packet_write(s.subrange(5 * j, 5 * j + 5)))
}

/// The bytes of `s` after its last complete packet.
pub open spec fn leftover(s: Seq<u8>) -> Seq<u8> {
    s.skip((s.len() / 5 * 5) as int)
}

/// `data` after drawing each write `(x, y, v)` of `ws` in turn as the grey pixel `(v, v, v)`.
pub open spec fn apply_writes(info: FrameBufferInfo, data: Seq<u8>, ws: Seq<(int, int, u8)>) -> Seq<u8>
    decreases ws.len(),
{
    if ws.len() == 0 {
        data
    } else {
        let w = ws.last();
        write_pixel(info, apply_writes(info, data, ws.drop_last()), w.0, w.1, w.2, w.2, w.2)
    }
}

/// Every write lands on a visible pixel, in a format that can be drawn in.
pub open spec fn writes_fit(info: FrameBufferInfo, ws: Seq<(int, int, u8)>) -> bool {
    &&& ws.len() > 0 ==> supported(info.pixel_format)
    &&& forall|j: int| 0 <= j < ws.len() ==> info.visible(#[trigger] ws[j].0, ws[j].1)
}

/// Appending one byte to a stream either completes the pending packet or extends it.
pub proof fn lemma_stream_push(s: Seq<u8>, b: u8)
    ensures
        leftover(s).len() < 5,
        leftover(s).len() + 1 == 5 ==> packet_writes(s.push(b)) == packet_writes(s).push(packet_write(leftover(s).push(b)))
            && leftover(s.push(b)) == Seq::<u8>::empty(),
        leftover(s).len() + 1 < 5 ==> packet_writes(s.push(b)) == packet_writes(s)
            && leftover(s.push(b)) == leftover(s).push(b),
{
    let n = s.len() as int;
    let q = n / 5;
    let r = n % 5;
    vstd::arithmetic::div_mod::lemma_fundamental_div_mod(n, 5);
    vstd::arithmetic::div_mod::lemma_mod_bound(n, 5);
    vstd::arithmetic::div_mod::lemma_div_pos_is_pos(n, 5);
    assert(n / 5 * 5 == 5 * q);
    let t = s.push(b);
    let pw = packet_writes(s);
    let pt = packet_writes(t);
    if r + 1 == 5 {
        vstd::arithmetic::div_mod::lemma_fundamental_div_mod_converse(n + 1, 5, q + 1, 0);
        assert(leftover(s) =~= s.subrange(5 * q, n));
        assert forall|j: int| 0 <= j < q implies pt[j] == pw[j] by {
            assert(t.subrange(5 * j, 5 * j + 5) =~= s.subrange(5 * j, 5 * j + 5));
        }
        assert(t.subrange(5 * q, 5 * q + 5) =~= leftover(s).push(b));
        assert(pt =~= pw.push(packet_write(leftover(s).push(b))));
        assert(leftover(t) =~= Seq::<u8>::empty());
    } else {
        vstd::arithmetic::div_mod::lemma_fundamental_div_mod_converse(n + 1, 5, q, r + 1);
        assert(leftover(s) =~= s.subrange(5 * q, n));
        assert forall|j: int| 0 <= j < q implies pt[j] == pw[j] by {
            assert(t.subrange(5 * j, 5 * j + 5) =~= s.subrange(5 * j, 5 * j + 5));
        }
        assert(pt =~= pw);
        assert(leftover(t) =~= leftover(s).push(b));
    }
}

/// The packets of a prefix of a stream are a prefix of the stream's packets.
pub proof fn lemma_packet_writes_prefix(s: Seq<u8>, m: int)
    requires
        0 <= m <= s.len(),
    ensures
        packet_writes(s.take(m)).len() <= packet_writes(s).len(),
        forall|j: int| 0 <= j < packet_writes(s.take(m)).len() ==> #[trigger] packet_writes(s.take(m))[j] == packet_writes(s)[j],
{
    vstd::arithmetic::div_mod::lemma_div_is_ordered(m, s.len() as int, 5);
    let t = s.take(m);
    assert forall|j: int| 0 <= j < packet_writes(t).len() implies #[trigger] packet_writes(t)[j] == packet_writes(s)[j] by {
        vstd::arithmetic::div_mod::lemma_fundamental_div_mod(m, 5);
        vstd::arithmetic::div_mod::lemma_mod_bound(m, 5);
        assert(t.subrange(5 * j, 5 * j + 5) =~= s.subrange(5 * j, 5 * j + 5));
    }
}

/// Collects the bytes of pixel packets as they stream in, across sector boundaries.
#[derive(Clone, Copy)]
pub struct PacketDecoder {
    /// Which byte of the current packet comes next, 0 to 4.
    pub index: usize,
    /// The bytes of the current packet received so far.
    pub packet: [u8; 5],
}

impl PacketDecoder {
    /// The index is inside the packet.
    pub open spec fn wf(&self) -> bool {
        self.index < PACKET_LEN
    }

    /// The bytes of the current, incomplete packet.
    pub open spec fn pending(&self) -> Seq<u8> {
        self.packet@.take(self.index as int)
    }

    /// A decoder that has received nothing yet.
    pub fn new() -> (res: PacketDecoder)
        ensures
            res.wf(),
            res.pending() == Seq::<u8>::empty(),
            res.index == 0,
            res.packet@ == Seq::new(5, |i: int| 0u8),
    {
        let res = PacketDecoder { index: 0, packet: [0u8; 5] };
        assert(res.pending() =~= Seq::<u8>::empty());
        assert(res.packet@ =~= Seq::new(5, |i: int| 0u8));
        res
    }

    /// Takes in the next byte; when it completes a packet, returns that packet's
    /// write `(x, y, value)` and starts a new packet.
    pub fn feed(&mut self, byte: u8) -> (res: Option<(usize, usize, u8)>)
        requires
            old(self).wf(),
        ensures
            final(self).wf(),
            old(self).pending().len() + 1 == 5 ==> final(self).pending() == Seq::<u8>::empty()
                && (res matches Some(w) && (w.0 as int, w.1 as int, w.2) == packet_write(old(self).pending().push(byte))),
            old(self).pending().len() + 1 < 5 ==> res is None && final(self).pending() == old(self).pending().push(byte),
    {
        let ghost before = self.pending();
        self.packet[self.index] = byte;
        self.index = self.index + 1;
        assert(self.pending() =~= before.push(byte));
        if self.index == PACKET_LEN {
            let p0: u8 = self.packet[0];
            let p1: u8 = self.packet[1];
            let p2: u8 = self.packet[2];
            let p3: u8 = self.packet[3];
            proof {
                assert(((p1 as usize) | ((p0 as usize) << 8usize)) == (p0 as usize) * 256 + (p1 as usize)) by (bit_vector);
                assert(((p3 as usize) | ((p2 as usize) << 8usize)) == (p2 as usize) * 256 + (p3 as usize)) by (bit_vector);
            }
            let y: usize = p1 as usize | ((p0 as usize) << 8);
            let x: usize = p3 as usize | ((p2 as usize) << 8);
            let d: u8 = self.packet[4];
            self.index = 0;
            assert(self.pending() =~= Seq::<u8>::empty());
            Some((x, y, d))
        } else {
            None
        }
    }
}

impl FrameBuffer {
    /// Whether every packet that `bytes` completes, after what `decoder` holds,
    /// asks for a visible pixel in a drawable format.
    pub fn packets_fit(&self, decoder: &PacketDecoder, bytes: &[u8]) -> (res: bool)
        requires
            decoder.wf(),
        ensures
            res == writes_fit(self.info, packet_writes(decoder.pending() + bytes@)),
    {
        let ghost full = decoder.pending() + bytes@;
        let ghost p0 = decoder.pending();
        let mut dec = *decoder;
        let mut ok: bool = true;
        let mut i: usize = 0;
        let drawable: bool = match self.info.pixel_format {
            crate::layout::PixelFormat::Unknown { .. } => false,
            _ => true,
        };
        proof {
            assert(full.take(p0.len() as int) =~= p0);
            assert(leftover(p0) =~= p0) by {
                vstd::arithmetic::div_mod::lemma_fundamental_div_mod_converse(p0.len() as int, 5, 0, p0.len() as int);
            }
        }
        while i < bytes.len()
            invariant
                i <= bytes.len(),
                dec.wf(),
                full == p0 + bytes@,
                p0.len() < 5,
                drawable == supported(self.info.pixel_format),
                dec.pending() == leftover(full.take(p0.len() + i)),
                ok == writes_fit(self.info, packet_writes(full.take(p0.len() + i))),
            decreases bytes.len() - i,
        {
            let ghost s = full.take(p0.len() + i);
            let b: u8 = bytes[i];
            proof {
                lemma_stream_push(s, b);
                assert(s.push(b) =~= full.take(p0.len() + i + 1));
            }
            match dec.feed(b) {
                Some((x, y, _v)) => {
                    let fits: bool = drawable && x < self.info.width && y < self.info.height;
                    proof {
                        let t = s.push(b);
                        let pt = packet_writes(t);
                        let last = pt.len() - 1;
                        assert(pt[last] == packet_write(leftover(s).push(b)));
                        assert(writes_fit(self.info, pt) == (writes_fit(self.info, packet_writes(s)) && fits)) by {
                            if writes_fit(self.info, pt) {
                                assert(self.info.visible(pt[last].0, pt[last].1));
                                assert forall|j: int| 0 <= j < packet_writes(s).len() implies self.info.visible(#[trigger] packet_writes(s)[j].0, packet_writes(s)[j].1) by {
                                    assert(pt[j] == packet_writes(s)[j]);
                                }
                            }
                            if writes_fit(self.info, packet_writes(s)) && fits {
                                assert forall|j: int| 0 <= j < pt.len() implies self.info.visible(#[trigger] pt[j].0, pt[j].1) by {
                                    if j < last {
                                        assert(pt[j] == packet_writes(s)[j]);
                                    }
                                }
                            }
                        }
                    }
                    ok = ok && fits;
                },
                None => {},
            }
            i = i + 1;
        }
        proof {
            assert(full.take(p0.len() + bytes.len()) =~= full);
        }
        ok
    }

    /// Feeds `bytes` to `decoder` and draws each packet it completes, in order,
    /// as the grey pixel `(value, value, value)` at `(x, y)`.
    pub fn draw_packets(&mut self, decoder: &mut PacketDecoder, bytes: &[u8])
        requires
            old(self).wf(),
            old(decoder).wf(),
            writes_fit(old(self).info, packet_writes(old(decoder).pending() + bytes@)),
        ensures
            final(self).wf(),
            final(self).info == old(self).info,
            final(self).data@ == apply_writes(old(self).info, old(self).data@, packet_writes(old(decoder).pending() + bytes@)),
            final(decoder).wf(),
            final(decoder).pending() == leftover(old(decoder).pending() + bytes@),
    {
        let ghost full = decoder.pending() + bytes@;
        let ghost p0 = decoder.pending();
        let ghost info = self.info;
        let ghost d0 = self.data@;
        let mut i: usize = 0;
        proof {
            assert(full.take(p0.len() as int) =~= p0);
            assert(leftover(p0) =~= p0) by {
                vstd::arithmetic::div_mod::lemma_fundamental_div_mod_converse(p0.len() as int, 5, 0, p0.len() as int);
            }
            assert(packet_writes(p0) =~= Seq::<(int, int, u8)>::empty()) by {
                vstd::arithmetic::div_mod::lemma_fundamental_div_mod_converse(p0.len() as int, 5, 0, p0.len() as int);
            }
        }
        while i < bytes.len()
            invariant
                i <= bytes.len(),
                decoder.wf(),
                self.wf(),
                self.info == info,
                full == p0 + bytes@,
                p0.len() < 5,
                writes_fit(info, packet_writes(full)),
                decoder.pending() == leftover(full.take(p0.len() + i)),
                self.data@ == apply_writes(info, d0, packet_writes(full.take(p0.len() + i))),
            decreases bytes.len() - i,
        {
            let ghost s = full.take(p0.len() + i);
            let b: u8 = bytes[i];
            proof {
                lemma_stream_push(s, b);
                assert(s.push(b) =~= full.take(p0.len() + i + 1));
                lemma_packet_writes_prefix(full, p0.len() + i + 1);
            }
            match decoder.feed(b) {
                Some((x, y, d)) => {
                    proof {
                        let pt = packet_writes(s.push(b));
                        let last = pt.len() - 1;
                        assert(pt[last] == packet_writes(full)[last]);
                        assert(info.visible(pt[last].0, pt[last].1));
                        assert(pt.drop_last() =~= packet_writes(s));
                    }
                    self.put(x, y, d, d, d);
                },
                None => {},
            }
            i = i + 1;
        }
        proof {
            assert(full.take(p0.len() + bytes.len()) =~= full);
        }
    }
}

/// The test image for the drive: 256 sectors of 512 bytes, every byte of sector
/// `n` holding `n`.
pub fn sector_pattern() -> (res: Vec<u8>)
    ensures
        res.len() == 256 * 512,
        forall|i: int| 0 <= i < 256 * 512 ==> #[trigger] res@[i] == i / 512,
{
    let mut res: Vec<u8> = Vec::new();
    let mut sector: usize = 0;
    while sector < 256
        invariant
            sector <= 256,
            res.len() == sector * 512,
            forall|i: int| 0 <= i < sector * 512 ==> #[trigger] res@[i] == i / 512,
        decreases 256 - sector,
    {
        let mut k: usize = 0;
        while k < 512
            invariant
                sector < 256,
                k <= 512,
                res.len() == sector * 512 + k,
                forall|i: int| 0 <= i < sector * 512 + k ==> #[trigger] res@[i] == i / 512,
            decreases 512 - k,
        {
            proof {
                vstd::arithmetic::div_mod::lemma_fundamental_div_mod_converse(
                    (sector * 512 + k) as int, 512, sector as int, k as int);
            }
            res.push(sector as u8);
            k = k + 1;
        }
        sector = sector + 1;
    }
    res
}

/// Sector registers name the block they were made from: the three bytes put
/// together again give the block number modulo 2^24.
pub proof fn lemma_lba_registers_roundtrip(lba: u64, lo: u8, mid: u8, hi: u8)
    requires
        lo == lba % 256,
        mid == (lba / 256) % 256,
        hi == (lba / 65536) % 256,
    ensures
        lo + 256 * mid + 65536 * hi == lba % 0x100_0000,
{
    assert((lba % 256) + 256 * ((lba / 256) % 256) + 65536 * ((lba / 65536) % 256) == lba % 0x100_0000) by (bit_vector);
}

/// Sector bytes put together again, low byte first, give back the words read.
pub proof fn lemma_sector_bytes_roundtrip(words: Seq<u16>, bytes: Seq<u8>, i: int)
    requires
        0 <= i < words.len(),
        2 * i + 1 < bytes.len(),
        bytes[2 * i] == words[i] % 256,
        bytes[2 * i + 1] == words[i] / 256,
    ensures
        bytes[2 * i] + 256 * bytes[2 * i + 1] == words[i],
{
    let w = words[i];
    assert(w % 256 + 256 * (w / 256) == w) by (bit_vector);
}

/// Drawing writes one after another is drawing the first writes, then the rest.
pub proof fn lemma_apply_writes_append(info: FrameBufferInfo, data: Seq<u8>, a: Seq<(int, int, u8)>, b: Seq<(int, int, u8)>)
    ensures
        apply_writes(info, data, a + b) == apply_writes(info, apply_writes(info, data, a), b),
    decreases b.len(),
{
    if b.len() == 0 {
        assert(a + b =~= a);
    } else {
        lemma_apply_writes_append(info, data, a, b.drop_last());
        assert((a + b).drop_last() =~= a + b.drop_last());
        assert((a + b).last() == b.last());
    }
}

/// A packet stream may be cut anywhere: the packets of `s1 + s2` are those of `s1`
/// followed by those of what `s1` leaves pending followed by `s2`, and both leave
/// the same bytes pending.
pub proof fn lemma_stream_split(s1: Seq<u8>, s2: Seq<u8>)
    ensures
        packet_writes(s1 + s2) == packet_writes(s1) + packet_writes(leftover(s1) + s2),
        leftover(s1 + s2) == leftover(leftover(s1) + s2),
    decreases s2.len(),
{
    if s2.len() == 0 {
        assert(s1 + s2 =~= s1);
        assert(leftover(s1) + s2 =~= leftover(s1));
        lemma_stream_push(s1, 0);
        let l = leftover(s1);
        assert(leftover(l) =~= l) by {
            vstd::arithmetic::div_mod::lemma_fundamental_div_mod_converse(l.len() as int, 5, 0, l.len() as int);
        }
        assert(packet_writes(l) =~= Seq::<(int, int, u8)>::empty()) by {
            vstd::arithmetic::div_mod::lemma_fundamental_div_mod_converse(l.len() as int, 5, 0, l.len() as int);
        }
        assert(packet_writes(s1) + packet_writes(l) =~= packet_writes(s1));
    } else {
        let b = s2.last();
        let s2p = s2.drop_last();
        lemma_stream_split(s1, s2p);
        assert(s1 + s2 =~= (s1 + s2p).push(b));
        assert(leftover(s1) + s2 =~= (leftover(s1) + s2p).push(b));
        lemma_stream_push(s1 + s2p, b);
        lemma_stream_push(leftover(s1) + s2p, b);
        let u = s1 + s2p;
        let v = leftover(s1) + s2p;
        if leftover(u).len() + 1 == 5 {
            assert(packet_writes(s1) + packet_writes(v).push(packet_write(leftover(v).push(b)))
                =~= (packet_writes(s1) + packet_writes(v)).push(packet_write(leftover(u).push(b))));
        }
    }
}

/// Drawing a stream in two pieces, carrying the decoder over, draws the same as
/// drawing it in one piece: packets may straddle sector boundaries.
pub proof fn lemma_draw_in_pieces(info: FrameBufferInfo, data: Seq<u8>, pending: Seq<u8>, s1: Seq<u8>, s2: Seq<u8>)
    ensures
        apply_writes(info, apply_writes(info, data, packet_writes(pending + s1)), packet_writes(leftover(pending + s1) + s2))
            == apply_writes(info, data, packet_writes(pending + s1 + s2)),
        leftover(leftover(pending + s1) + s2) == leftover(pending + s1 + s2),
{
    lemma_stream_split(pending + s1, s2);
    lemma_apply_writes_append(info, data, packet_writes(pending + s1), packet_writes(leftover(pending + s1) + s2));
}

} // verus!
