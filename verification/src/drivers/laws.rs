//! What holds of the devices, each said of what stands on the screen, in registers and in memory.

use crate::drivers::console::{self, ConsoleView};
use crate::drivers::pci::{self, Bar, Place};
use crate::drivers::ports::PortWrite;
use crate::drivers::vga::{self, ScreenChar, ScreenView};
use crate::drivers::virtio_queue::{self, VirtioBlk};
use crate::util;
use vstd::prelude::*;

verus! {

// ---------------------------------------------------------------------------------------------
// Screen and console
// ---------------------------------------------------------------------------------------------

/// Printable characters and line feeds are shown as they are, any other byte as a filled square.
pub proof fn law_printable_characters_are_shown(b: u8)
    ensures
        vga::shown(b) == (if 0x20 <= b <= 0x7E || b == 10 {
            b
        } else {
            0xFE
        }),
{
}

/// A character behind a full row is the first of a new one: all rows move up.
pub proof fn law_full_row_moves_up(s: ScreenView, b: u8, i: int)
    requires
        s.wf(),
        s.column == 80,
        b != 10,
        0 <= i < 2000,
    ensures
        ({
            let t = s.byte_written(b);
            &&& t.column == 1
            &&& t.color == s.color
            &&& t.cells.len() == 2000
            &&& t.cells[i] == (if i < 1920 {
                s.cells[i + 80]
            } else if i == 1920 {
                ScreenChar { ascii: b, color: s.color }
            } else {
                ScreenChar { ascii: 0x20, color: s.color }
            })
        }),
{
}

/// Text is written to the screen byte by byte, in order.
pub proof fn law_text_is_written_in_order(s: ScreenView, a: Seq<u8>, b: Seq<u8>)
    ensures
        s.bytes_written(a + b) == s.bytes_written(a).bytes_written(b),
        s.bytes_written(Seq::empty()) == s,
    decreases b.len(),
{
    if b.len() == 0 {
        assert(a + b =~= a);
    } else {
        law_text_is_written_in_order(s, a, b.drop_last());
        assert((a + b).drop_last() =~= a + b.drop_last());
        assert((a + b).last() == b.last());
    }
}

/// Input becomes readable line by line: what is typed is held back until a line feed, which hands
/// all of the line over, itself included. Until then the last character can be taken back.
pub proof fn law_input_becomes_readable_by_lines(c: ConsoleView, b: u8)
    ensures
        ({
            let (c2, readable) = c.fed(b);
            &&& readable == (b == 10)
            &&& b == 10 ==> c2.ready == c.ready + c.line.push(10) && c2.line.len() == 0
            &&& b != 10 ==> c2.ready == c.ready
            &&& b != 10 && b != 8 ==> c2.line == c.line.push(b)
            &&& b == 8 && c.line.len() > 0 ==> c2.line == c.line.drop_last()
            &&& b == 8 && c.line.len() == 0 ==> c2.line == c.line
        }),
{
}

/// What is typed is shown: a character behind the row, a line feed as a new row; a character that is
/// taken back goes, and nothing goes where nothing was typed.
pub proof fn law_typed_characters_are_shown(s: ScreenView, line: Seq<u8>, b: u8)
    ensures
        b != 8 ==> console::echoed(s, line, b) == s.bytes_written(seq![b]),
        b == 8 && line.len() == 0 ==> console::echoed(s, line, b) == s,
        b == 8 && line.len() > 0 ==> console::echoed(s, line, b) == s.rubbed_out(),
{
    assert(seq![b].drop_last() =~= Seq::<u8>::empty());
    assert(s.bytes_written(seq![b].drop_last()) == s);
}

// ---------------------------------------------------------------------------------------------
// Bus
// ---------------------------------------------------------------------------------------------

/// What a base address register says: nothing where it is 0; where it is odd, ports from a multiple
/// of four on; else memory from a multiple of sixteen on, of which the next register may hold the
/// upper half.
pub proof fn law_base_address_registers(bars: Seq<u32>, i: int)
    requires
        0 <= i < 6,
        bars.len() == 6,
    ensures
        ({
            let raw = bars[i];
            &&& raw == 0 ==> pci::bar_of(bars, i) is Absent
            &&& raw % 2 == 1 ==> (pci::bar_of(bars, i) matches Bar::Io { base } && base % 4 == 0 && base
                <= raw < base + 4)
            &&& raw != 0 && raw % 2 == 0 ==> (pci::bar_of(bars, i) matches Bar::Mem {
                base,
                prefetchable,
                is_64,
            } && {
                &&& base % 16 == 0
                &&& is_64 == (raw % 8 == 4 || raw % 8 == 5)
                &&& prefetchable == (raw % 16 >= 8)
                &&& base % 0x1_0000_0000 <= raw < base % 0x1_0000_0000 + 16
                &&& base / 0x1_0000_0000 == (if is_64 && i < 5 {
                    bars[i + 1] as int
                } else {
                    0
                })
            })
        }),
{
    let raw = bars[i];
    if raw != 0 && raw % 2 == 0 {
        let low = raw - raw % 16;
        let high = if raw / 2 % 4 == 2 && i + 1 < 6 {
            bars[i + 1] as int
        } else {
            0
        };
        let base = low + 0x1_0000_0000 * high;
        assert(0 <= base <= u64::MAX);
        assert(base % 0x1_0000_0000 == low && base / 0x1_0000_0000 == high);
    }
}

/// The registers of a function in bytes and pairs of bytes, the low one first: four bytes in each.
pub proof fn law_registers_are_read_low_byte_first(cs: Map<u64, Seq<u32>>, key: u64, n: int)
    requires
        0 <= n < 64,
    ensures
        ({
            let w = if cs.dom().contains(key) && n < cs[key].len() {
                cs[key][n]
            } else {
                0xFFFF_FFFF
            };
            &&& pci::config_word(cs, key, 4 * n) == w
            &&& pci::config_half(cs, key, 4 * n) + 0x1_0000 * pci::config_half(cs, key, 4 * n + 2) == w
            &&& pci::config_byte(cs, key, 4 * n) + 0x100 * pci::config_byte(cs, key, 4 * n + 1)
                == pci::config_half(cs, key, 4 * n)
            &&& pci::config_byte(cs, key, 4 * n + 2) + 0x100 * pci::config_byte(cs, key, 4 * n + 3)
                == pci::config_half(cs, key, 4 * n + 2)
        }),
{
}

/// A function says who has made it and what it is in its first registers, and where its ports and
/// its memory are in the six from the fifth on.
pub proof fn law_device_is_described_by_its_registers(cs: Map<u64, Seq<u32>>, d: pci::PciDevice, i: int)
    requires
        pci::describes(cs, d),
        0 <= i < 6,
    ensures
        ({
            let key = (256 * d.bus + 8 * d.slot + d.func) as u64;
            &&& d.vendor_id + 0x1_0000 * d.device_id == pci::config_word(cs, key, 0)
            &&& 0x100 * d.prog_if + 0x1_0000 * d.subclass + 0x100_0000 * d.class == pci::config_word(
                cs,
                key,
                8,
            ) - pci::config_word(cs, key, 8) % 0x100
            &&& d.header_type == pci::config_word(cs, key, 12) / 0x1_0000 % 0x100
            &&& d.bars@[i] == pci::config_word(cs, key, 16 + 4 * i)
        }),
{
    let key = pci::function_key(d.bus, d.slot, d.func);
    assert(d.bars@[i] == pci::config_word(cs, key, 0x10 + 4 * i));
}

/// A device that is looked for is found where there is one of its vendor and number among the
/// functions of the bus; what is found is the first of them.
pub proof fn law_first_device_is_found(
    cs: Map<u64, Seq<u32>>,
    ps: Seq<Place>,
    vendor: u16,
    device: u16,
    i: int,
)
    requires
        0 <= i < ps.len(),
        pci::has_ids(cs, ps[i], vendor, device),
        forall|j: int| 0 <= j < i ==> !#[trigger] pci::has_ids(cs, ps[j], vendor, device),
    ensures
        pci::first_with(cs, ps, vendor, device) == Some(ps[i]),
    decreases i,
{
    if i > 0 {
        assert(!pci::has_ids(cs, ps[0], vendor, device));
        let rest = ps.skip(1);
        assert forall|j: int| 0 <= j < i - 1 implies !#[trigger] pci::has_ids(
            cs,
            rest[j],
            vendor,
            device,
        ) by {
            assert(rest[j] == ps[j + 1]);
        }
        assert(rest[i - 1] == ps[i]);
        law_first_device_is_found(cs, rest, vendor, device, i - 1);
    }
}

/// A device that is not there is not found.
pub proof fn law_missing_device_is_not_found(
    cs: Map<u64, Seq<u32>>,
    ps: Seq<Place>,
    vendor: u16,
    device: u16,
)
    requires
        forall|j: int| 0 <= j < ps.len() ==> !#[trigger] pci::has_ids(cs, ps[j], vendor, device),
    ensures
        pci::first_with(cs, ps, vendor, device) is None,
    decreases ps.len(),
{
    if ps.len() > 0 {
        assert(!pci::has_ids(cs, ps[0], vendor, device));
        let rest = ps.skip(1);
        assert forall|j: int| 0 <= j < rest.len() implies !#[trigger] pci::has_ids(
            cs,
            rest[j],
            vendor,
            device,
        ) by {
            assert(rest[j] == ps[j + 1]);
        }
        law_missing_device_is_not_found(cs, rest, vendor, device);
    }
}

// ---------------------------------------------------------------------------------------------
// Disk
// ---------------------------------------------------------------------------------------------

/// The header of a request: what is asked for, 0 to read and 1 to write, four zeros, and the number
/// of the sector; behind it a status that no device gives.
pub proof fn law_request_names_its_sector(kind: u32, lba: u64)
    ensures
        ({
            let b = virtio_queue::header_bytes(kind, lba);
            &&& b.len() == 17
            &&& util::le32(b, 0) == kind
            &&& util::le32(b, 4) == 0
            &&& util::le64(b, 8) == lba
            &&& b[16] == 0xFF
            &&& virtio_queue::VIRTIO_BLK_T_IN == 0
            &&& virtio_queue::VIRTIO_BLK_T_OUT == 1
        }),
{
    let b = virtio_queue::header_bytes(kind, lba);
    let x = util::enc32(kind);
    let y = util::enc64(lba);
    util::lemma_le32_enc32(kind);
    util::lemma_le32_enc32(0);
    util::lemma_le64_enc64(lba);
    assert(b[0] == x[0] && b[1] == x[1] && b[2] == x[2] && b[3] == x[3]);
    assert(b[4] == 0 && b[5] == 0 && b[6] == 0 && b[7] == 0);
    assert(b[8] == y[0] && b[9] == y[1] && b[10] == y[2] && b[11] == y[3]);
    assert(b[12] == y[4] && b[13] == y[5] && b[14] == y[6] && b[15] == y[7]);
}

/// The three descriptors of a request: sixteen bytes of header, a sector of data behind it, and one
/// byte of status; each of the first two names the next.
pub proof fn law_request_is_three_buffers(buf: u64, device_writes: bool)
    requires
        buf + 4096 <= u64::MAX,
    ensures
        ({
            let c = virtio_queue::chain_bytes(buf, device_writes);
            &&& c.len() == 48
            &&& util::le32(c, 8) == 16 && util::le32(c, 24) == 512 && util::le32(c, 40) == 1
            &&& util::le16(c, 14) == 1 && util::le16(c, 30) == 2
        }),
{
    let c = virtio_queue::chain_bytes(buf, device_writes);
    util::lemma_le32_enc32(16);
    util::lemma_le32_enc32(512);
    util::lemma_le32_enc32(1);
    util::lemma_le16_enc16(1);
    util::lemma_le16_enc16(2);
    let (a, b, s) = (util::enc32(16), util::enc32(512), util::enc32(1));
    assert(c[8] == a[0] && c[9] == a[1] && c[10] == a[2] && c[11] == a[3]);
    assert(c[24] == b[0] && c[25] == b[1] && c[26] == b[2] && c[27] == b[3]);
    assert(c[40] == s[0] && c[41] == s[1] && c[42] == s[2] && c[43] == s[3]);
    assert(c[14] == util::enc16(1)[0] && c[15] == util::enc16(1)[1]);
    assert(c[30] == util::enc16(2)[0] && c[31] == util::enc16(2)[1]);
}

/// A request is made available by its first descriptor, 0, in the next place of the ring, and by
/// the count of requests, which goes up by one. Nothing else in the queue changes.
pub proof fn law_request_is_made_available(v: VirtioBlk, queue: Seq<u8>, i: int)
    requires
        v.wf(),
        queue.len() == v.layout.pages * 4096,
        0 <= i < queue.len(),
    ensures
        ({
            let n = v.layout.queue_size as int;
            let avail = 16 * n;
            let idx = util::le16(queue, avail + 2);
            let place = avail + 4 + 2 * (idx as int % n);
            let q = v.published(queue);
            &&& q.len() == queue.len()
            &&& util::le16(q, avail + 2) == (idx + 1) % 0x1_0000
            &&& place != avail + 2
            &&& q[place] == 0 && q[place + 1] == 0
            &&& !(avail + 2 <= i < avail + 4) && !(place <= i < place + 2) ==> q[i] == queue[i]
        }),
{
    let n = v.layout.queue_size;
    virtio_queue::law_queue_parts_are_apart(n);
    let avail = 16 * n as int;
    assert(v.layout.avail_offset == avail);
    let idx = util::le16(queue, avail + 2);
    let place = avail + 4 + 2 * (idx as int % n as int);
    assert(0 <= idx as int % n as int);
    assert(avail + 4 + 2 * (idx % n) + 2 <= v.layout.used_offset);
    let next: u16 = if idx == u16::MAX {
        0
    } else {
        (idx + 1) as u16
    };
    util::lemma_le16_enc16(next);
    let e = util::enc16(next);
    let q = v.published(queue);
    assert(q[avail + 2] == e[0] && q[avail + 3] == e[1]);
    util::lemma_le16_enc16(0);
    assert(util::enc16(0)[0] == 0 && util::enc16(0)[1] == 0);
    assert(q[place] == 0 && q[place + 1] == 0);
}

/// A device is reset, then told that it was found and that there is a driver; once its queue lies at
/// the page that it is given, it is told that the driver is ready.
pub proof fn law_device_is_brought_up_step_by_step(io: u16, queue: u64)
    requires
        io <= virtio_queue::IO_BASE_MAX,
        queue / 4096 <= u32::MAX,
    ensures
        virtio_queue::start_writes(io as int) == seq![
            PortWrite::Byte { port: (io + 18) as u16, value: 0 },
            PortWrite::Byte { port: (io + 18) as u16, value: 1 },
            PortWrite::Byte { port: (io + 18) as u16, value: 3 },
        ],
        virtio_queue::finish_writes(io as int, queue) == seq![
            PortWrite::Long { port: (io + 8) as u16, value: (queue / 4096) as u32 },
            PortWrite::Byte { port: (io + 18) as u16, value: 7 },
        ],
        virtio_queue::failed_write(io as int) == (PortWrite::Byte {
            port: (io + 18) as u16,
            value: 128,
        }),
{
}

} // verus!
