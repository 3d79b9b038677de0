//! Bringing the disk up, and requests to it: the queue in memory that driver and device share.
//!
//! The queue has three parts: descriptors of buffers, the ring in which the driver makes requests
//! available, and the ring in which the device says which are used. The last starts at a page.

use crate::drivers::pci::{Bar, ConfigSpace, PciDevice, PCI_CMD_ENABLE};
use crate::drivers::pci;
use crate::drivers::ports::PortWrite;
use crate::drivers::virtio_blk::{BlkError, SECTOR_SIZE};
use crate::mm::frame::{BootInfoFrameAllocator, FramesView};
use crate::util;
use vstd::prelude::*;

verus! {

/// Vendor of the device.
pub const PCI_VENDOR_VIRTIO: u16 = 0x1AF4;

/// Number of the disk.
pub const PCI_DEVICE_VIRTIO_BLK: u16 = 0x1001;

/// Registers, by their distance from the first port.
pub const REG_DEVICE_FEATURES: u16 = 0x00;
pub const REG_DRIVER_FEATURES: u16 = 0x04;
pub const REG_QUEUE_PFN: u16 = 0x08;
pub const REG_QUEUE_SIZE: u16 = 0x0C;
pub const REG_QUEUE_SELECT: u16 = 0x0E;
pub const REG_QUEUE_NOTIFY: u16 = 0x10;
pub const REG_DEVICE_STATUS: u16 = 0x12;
pub const REG_CONFIG: u16 = 0x14;

/// Bits of the status register.
pub const STATUS_ACK: u8 = 1;
pub const STATUS_DRIVER: u8 = 2;
pub const STATUS_DRIVER_OK: u8 = 4;
pub const STATUS_FAILED: u8 = 0x80;

/// Flags of a descriptor: another one follows; the device writes to the buffer.
pub const VIRTQ_DESC_F_NEXT: u16 = 1;
pub const VIRTQ_DESC_F_WRITE: u16 = 2;

/// Flag of the available ring: the device need not interrupt.
pub const VIRTQ_AVAIL_F_NO_INTERRUPT: u16 = 1;

/// Kinds of requests.
pub const VIRTIO_BLK_T_IN: u32 = 0;
pub const VIRTIO_BLK_T_OUT: u32 = 1;

/// Size of a page.
pub const QUEUE_ALIGN: usize = 4096;

/// Where the parts of a request lie in its buffer of one page.
pub const BUF_HEADER: usize = 0;
pub const BUF_STATUS: usize = 16;
pub const BUF_DATA: usize = 512;

/// Highest first port with which all registers exist.
pub const IO_BASE_MAX: u16 = 0xFFE0;

/// What stops the driver from being brought up.
#[derive(Debug, Clone, Copy, PartialEq, Eq, Structural)]
pub enum InitError {
    /// There is no such device.
    NotFound,
    /// Its first base address register describes no ports.
    NoPorts,
    /// The device has no queue.
    NoQueue,
    /// There is no memory for the queue.
    NoQueueMemory,
    /// There is no memory for the buffer.
    NoBufferMemory,
}

/// A number rounded up to a multiple of a page.
pub open spec fn page_round(x: int) -> int {
    (x + 4095) / 4096 * 4096
}

/// Where the parts of a queue lie, and how many pages it takes.
#[derive(Debug, Clone, Copy, PartialEq, Eq, Structural)]
pub struct QueueLayout {
    pub queue_size: u16,
    pub avail_offset: usize,
    pub used_offset: usize,
    pub pages: usize,
}

/// The layout of a queue of `n` entries: descriptors of 16 bytes, the available ring of six bytes
/// and two for each entry, and from the next page on the used ring of six bytes and eight for each
/// entry.
pub open spec fn layout_of(n: u16) -> QueueLayout {
    let used = page_round(18 * n + 6);
    QueueLayout {
        queue_size: n,
        avail_offset: (16 * n) as usize,
        used_offset: used as usize,
        pages: (page_round(used + 6 + 8 * n) / 4096) as usize,
    }
}

/// A disk that was brought up: its ports, the queue, the addresses of queue and buffer in physical
/// memory, how far the device was with its answers, and the number of sectors.
#[derive(Debug, Clone, Copy)]
pub struct VirtioBlk {
    pub io_base: u16,
    pub layout: QueueLayout,
    pub queue_phys: u64,
    pub buf_phys: u64,
    pub last_used_idx: u16,
    pub capacity_sectors: u64,
}

/// Computes the layout of a queue.
pub fn queue_layout(queue_size: u16) -> (l: QueueLayout)
    ensures
        l == layout_of(queue_size),
        l.used_offset == page_round(18 * queue_size + 6),
        l.pages * 4096 == page_round(l.used_offset + 6 + 8 * queue_size),
        0 < l.pages,
{
    let n = queue_size as usize;
    let used = (18 * n + 6 + 4095) / 4096 * 4096;
    let bytes = used + 6 + 8 * n;
    let pages = (bytes + 4095) / 4096;
    assert(page_round(bytes as int) / 4096 == pages);
    QueueLayout { queue_size, avail_offset: 16 * n, used_offset: used, pages }
}

/// The disk on the bus. Of several disks the first is taken.
pub fn locate(cs: &ConfigSpace) -> (r: Result<PciDevice, InitError>)
    ensures
        match pci::found(cs@, PCI_VENDOR_VIRTIO, PCI_DEVICE_VIRTIO_BLK) {
            None => r matches Err(e) && e is NotFound,
            Some(p) => r matches Ok(d) && pci::place_of(d) == p && pci::describes(cs@, d),
        },
{
    match cs.find(PCI_VENDOR_VIRTIO, PCI_DEVICE_VIRTIO_BLK) {
        Some(d) => Ok(d),
        None => Err(InitError::NotFound),
    }
}

/// The first of the ports of a device, once it answers on them.
pub fn ports(d: &PciDevice) -> (r: Result<u16, InitError>)
    ensures
        r == (match pci::bar_of(d.bars@, 0) {
            Bar::Io { base } => Ok(base as u16),
            _ => Err(InitError::NoPorts),
        }),
{
    match d.bar(0) {
        Bar::Io { base } => Ok(base as u16),
        _ => Err(InitError::NoPorts),
    }
}

/// The value of the command register with which the device answers on its ports and may use memory.
pub fn enabled_command(cmd: u32) -> (r: u32)
    ensures
        r == cmd | PCI_CMD_ENABLE,
{
    cmd | PCI_CMD_ENABLE
}

/// The writes that reset a device and tell it that it was noticed and that there is a driver.
pub open spec fn start_writes(io: int) -> Seq<PortWrite> {
    seq![
        PortWrite::Byte { port: (io + REG_DEVICE_STATUS) as u16, value: 0 },
        PortWrite::Byte { port: (io + REG_DEVICE_STATUS) as u16, value: 1 },
        PortWrite::Byte { port: (io + REG_DEVICE_STATUS) as u16, value: 3 },
    ]
}

/// The writes that start an agreement with a device. Then it says which features it has.
pub fn start(io_base: u16) -> (w: Vec<PortWrite>)
    requires
        io_base <= IO_BASE_MAX,
    ensures
        w@ == start_writes(io_base as int),
{
    let mut w: Vec<PortWrite> = Vec::new();
    w.push(PortWrite::Byte { port: io_base + REG_DEVICE_STATUS, value: 0 });
    w.push(PortWrite::Byte { port: io_base + REG_DEVICE_STATUS, value: STATUS_ACK });
    w.push(PortWrite::Byte { port: io_base + REG_DEVICE_STATUS, value: STATUS_ACK + STATUS_DRIVER });
    assert(w@ =~= start_writes(io_base as int));
    w
}

/// The writes that accept no features of the disk and select its queue. Then it says how long the
/// queue is.
pub fn select_queue(io_base: u16) -> (w: Vec<PortWrite>)
    requires
        io_base <= IO_BASE_MAX,
    ensures
        w@ == seq![
            PortWrite::Long { port: (io_base + REG_DRIVER_FEATURES) as u16, value: 0u32 },
            PortWrite::Word { port: (io_base + REG_QUEUE_SELECT) as u16, value: 0u16 },
        ],
{
    let mut w: Vec<PortWrite> = Vec::new();
    w.push(PortWrite::Long { port: io_base + REG_DRIVER_FEATURES, value: 0 });
    w.push(PortWrite::Word { port: io_base + REG_QUEUE_SELECT, value: 0 });
    w
}

/// The write that tells the device that the driver gives up.
pub open spec fn failed_write(io: int) -> PortWrite {
    PortWrite::Byte { port: (io + REG_DEVICE_STATUS) as u16, value: STATUS_FAILED }
}

/// Tells the device that the driver gives up.
pub fn give_up(io_base: u16) -> (w: PortWrite)
    requires
        io_base <= IO_BASE_MAX,
    ensures
        w == failed_write(io_base as int),
{
    PortWrite::Byte { port: io_base + REG_DEVICE_STATUS, value: STATUS_FAILED }
}

/// The memory of queue and buffer, taken from an allocator: what is left of it, and the address of
/// each.
pub open spec fn memory_taken(f: FramesView, n: u16) -> (FramesView, Result<(u64, u64), InitError>) {
    if n == 0 {
        (f, Err(InitError::NoQueue))
    } else {
        match f.run_taken(layout_of(n).pages as int) {
            (f1, None) => (f1, Err(InitError::NoQueueMemory)),
            (f1, Some(queue)) => match f1.run_taken(1) {
                (f2, None) => (f2, Err(InitError::NoBufferMemory)),
                (f2, Some(buffer)) => (f2, Ok((queue, buffer))),
            },
        }
    }
}

/// Takes memory for a queue of the size that the device has, and for the buffer.
pub fn take_memory(frames: &mut BootInfoFrameAllocator, queue_size: u16) -> (r: Result<
    (u64, u64),
    InitError,
>)
    requires
        old(frames).wf(),
    ensures
        final(frames).wf(),
        (final(frames)@, r) == memory_taken(old(frames)@, queue_size),
{
    if queue_size == 0 {
        return Err(InitError::NoQueue);
    }
    let layout = queue_layout(queue_size);
    let queue = match frames.allocate_contiguous(layout.pages) {
        Some(f) => f,
        None => {
            return Err(InitError::NoQueueMemory);
        },
    };
    let buffer = match frames.allocate_contiguous(1) {
        Some(f) => f,
        None => {
            return Err(InitError::NoBufferMemory);
        },
    };
    Ok((queue, buffer))
}

/// The first contents of the queue: zeros, and the flag that no interrupts are wanted.
pub open spec fn queue_start(n: u16) -> Seq<u8> {
    util::splice(
        Seq::new((layout_of(n).pages * 4096) as nat, |i: int| 0u8),
        16 * n,
        util::enc16(VIRTQ_AVAIL_F_NO_INTERRUPT),
    )
}

/// The first contents of the queue.
pub fn fresh_queue(queue_size: u16) -> (q: Vec<u8>)
    ensures
        q@ == queue_start(queue_size),
{
    let layout = queue_layout(queue_size);
    let len = layout.pages * QUEUE_ALIGN;
    let mut q: Vec<u8> = Vec::new();
    let mut i: usize = 0;
    while i < len
        invariant
            i <= len,
            q@ =~= Seq::new(i as nat, |j: int| 0u8),
        decreases len - i,
    {
        q.push(0);
        i += 1;
    }
    util::put_u16(q.as_mut_slice(), layout.avail_offset, VIRTQ_AVAIL_F_NO_INTERRUPT);
    assert(q@ =~= queue_start(queue_size));
    q
}

/// The writes that hand the queue to the device and tell it that the driver is ready. The device
/// knows the queue by the number of its first page.
pub open spec fn finish_writes(io: int, queue_phys: u64) -> Seq<PortWrite> {
    seq![
        PortWrite::Long {
            port: (io + REG_QUEUE_PFN) as u16,
            value: (queue_phys / 4096) as u32,
        },
        PortWrite::Byte { port: (io + REG_DEVICE_STATUS) as u16, value: 7u8 },
    ]
}

/// Hands the queue to the device.
pub fn finish(io_base: u16, queue_phys: u64) -> (w: Vec<PortWrite>)
    requires
        io_base <= IO_BASE_MAX,
    ensures
        w@ == finish_writes(io_base as int, queue_phys),
{
    let mut w: Vec<PortWrite> = Vec::new();
    w.push(PortWrite::Long { port: io_base + REG_QUEUE_PFN, value: (queue_phys / 4096) as u32 });
    w.push(
        PortWrite::Byte {
            port: io_base + REG_DEVICE_STATUS,
            value: STATUS_ACK + STATUS_DRIVER + STATUS_DRIVER_OK,
        },
    );
    w
}

/// Sets the queue up once the device has said how long it is: takes the memory, and returns the
/// writes that hand the queue over, or the one that gives up, with the addresses of queue and
/// buffer or the error.
pub fn set_up_queue(frames: &mut BootInfoFrameAllocator, io_base: u16, queue_size: u16) -> (r: (
    Vec<PortWrite>,
    Result<(u64, u64), InitError>,
))
    requires
        io_base <= IO_BASE_MAX,
        old(frames).wf(),
    ensures
        final(frames).wf(),
        (final(frames)@, r.1) == memory_taken(old(frames)@, queue_size),
        r.0@ == (match r.1 {
            Ok((queue, _)) => finish_writes(io_base as int, queue),
            Err(_) => seq![failed_write(io_base as int)],
        }),
{
    match take_memory(frames, queue_size) {
        Ok((queue, buffer)) => (finish(io_base, queue), Ok((queue, buffer))),
        Err(e) => {
            let mut w: Vec<PortWrite> = Vec::new();
            w.push(give_up(io_base));
            (w, Err(e))
        },
    }
}

/// The disk that was brought up, with the number of sectors that the device reports in two halves.
pub fn ready(
    io_base: u16,
    queue_size: u16,
    queue_phys: u64,
    buf_phys: u64,
    cap_lo: u32,
    cap_hi: u32,
) -> (d: VirtioBlk)
    ensures
        d.io_base == io_base,
        d.layout == layout_of(queue_size),
        d.queue_phys == queue_phys,
        d.buf_phys == buf_phys,
        d.last_used_idx == 0,
        d.capacity_sectors == cap_lo + 0x1_0000_0000 * cap_hi,
{
    VirtioBlk {
        io_base,
        layout: queue_layout(queue_size),
        queue_phys,
        buf_phys,
        last_used_idx: 0,
        capacity_sectors: cap_lo as u64 + 0x1_0000_0000 * (cap_hi as u64),
    }
}

/// A descriptor of a buffer: address, length, flags and the descriptor that follows.
pub open spec fn desc_bytes(addr: u64, len: u32, flags: u16, next: u16) -> Seq<u8> {
    util::enc64(addr) + util::enc32(len) + util::enc16(flags) + util::enc16(next)
}

/// The three descriptors of a request whose buffer lies at `buf`: the header, the data, which the
/// device writes for a read, and the status, which it always writes.
pub open spec fn chain_bytes(buf: u64, device_writes: bool) -> Seq<u8> {
    desc_bytes((buf + BUF_HEADER) as u64, 16, VIRTQ_DESC_F_NEXT, 1) + desc_bytes(
        (buf + BUF_DATA) as u64,
        SECTOR_SIZE as u32,
        if device_writes {
            3
        } else {
            VIRTQ_DESC_F_NEXT
        },
        2,
    ) + desc_bytes((buf + BUF_STATUS) as u64, 1, VIRTQ_DESC_F_WRITE, 0)
}

/// The header of a request and, behind it, a status that the device never reports.
pub open spec fn header_bytes(kind: u32, lba: u64) -> Seq<u8> {
    util::enc32(kind) + util::enc32(0) + util::enc64(lba) + seq![0xFFu8]
}

/// Writes descriptor number `i`.
fn write_desc(queue: &mut [u8], i: usize, addr: u64, len: u32, flags: u16, next: u16)
    requires
        16 * i + 16 <= old(queue)@.len(),
        i < 3,
    ensures
        final(queue)@ == util::splice(old(queue)@, 16 * i, desc_bytes(addr, len, flags, next)),
{
    let ghost before = queue@;
    util::put_u64(queue, 16 * i, addr);
    util::put_u32(queue, 16 * i + 8, len);
    util::put_u16(queue, 16 * i + 12, flags);
    util::put_u16(queue, 16 * i + 14, next);
    assert(queue@ =~= util::splice(before, 16 * i, desc_bytes(addr, len, flags, next)));
}

/// Puts the header of a request and an unset status into the buffer.
fn put_header(buf: &mut [u8], kind: u32, lba: u64)
    requires
        old(buf)@.len() == 4096,
    ensures
        final(buf)@ == util::splice(old(buf)@, 0, header_bytes(kind, lba)),
{
    let ghost b0 = buf@;
    util::put_u32(buf, BUF_HEADER, kind);
    util::put_u32(buf, BUF_HEADER + 4, 0);
    util::put_u64(buf, BUF_HEADER + 8, lba);
    buf[BUF_STATUS] = 0xFF;
    assert(buf@ =~= util::splice(b0, 0, header_bytes(kind, lba)));
}

/// Puts the descriptors of a request into the queue.
#[verifier::spinoff_prover]
#[verifier::rlimit(40)]
fn put_chain(queue: &mut [u8], phys: u64, data_device_write: bool)
    requires
        old(queue)@.len() >= 48,
        phys < 0x10_0000_0000_0000,
    ensures
        final(queue)@ == util::splice(old(queue)@, 0, chain_bytes(phys, data_device_write)),
{
    let ghost q0 = queue@;
    let flags: u16 = if data_device_write {
        VIRTQ_DESC_F_NEXT + VIRTQ_DESC_F_WRITE
    } else {
        VIRTQ_DESC_F_NEXT
    };
    write_desc(queue, 0, phys + BUF_HEADER as u64, 16, VIRTQ_DESC_F_NEXT, 1);
    write_desc(queue, 1, phys + BUF_DATA as u64, SECTOR_SIZE as u32, flags, 2);
    write_desc(queue, 2, phys + BUF_STATUS as u64, 1, VIRTQ_DESC_F_WRITE, 0);
    assert(queue@ =~= util::splice(q0, 0, chain_bytes(phys, data_device_write)));
}

impl VirtioBlk {
    /// The layout is that of its queue, which is not empty, and its memory has addresses.
    pub open spec fn wf(&self) -> bool {
        &&& self.layout == layout_of(self.layout.queue_size)
        &&& self.layout.queue_size >= 1
        &&& self.buf_phys < 0x10_0000_0000_0000
        &&& self.io_base <= IO_BASE_MAX
    }

    /// Lays out a request in the memory that the device reads: the header and an unset status in
    /// the buffer, and the descriptors in the queue.
    pub fn setup_chain(
        &self,
        queue: &mut [u8],
        buf: &mut [u8],
        kind: u32,
        lba: u64,
        data_device_write: bool,
    )
        requires
            self.wf(),
            old(queue)@.len() >= 48,
            old(buf)@.len() == 4096,
        ensures
            final(queue)@ == util::splice(
                old(queue)@,
                0,
                chain_bytes(self.buf_phys, data_device_write),
            ),
            final(buf)@ == util::splice(old(buf)@, 0, header_bytes(kind, lba)),
    {
        put_header(buf, kind, lba);
        put_chain(queue, self.buf_phys, data_device_write);
    }

    /// The queue after its first descriptor was entered in the ring behind those before it, and the
    /// count of requests went up.
    pub open spec fn published(&self, queue: Seq<u8>) -> Seq<u8> {
        let avail = self.layout.avail_offset as int;
        let idx = util::le16(queue, avail + 2);
        util::splice(
            util::splice(queue, avail + 4 + 2 * (idx % self.layout.queue_size), util::enc16(0)),
            avail + 2,
            util::enc16(
                if idx == u16::MAX {
                    0
                } else {
                    (idx + 1) as u16
                },
            ),
        )
    }

    /// Makes the request available: its first descriptor is entered in the ring behind those before
    /// it, and the count of requests goes up.
    pub fn publish(&self, queue: &mut [u8])
        requires
            self.wf(),
            old(queue)@.len() == self.layout.pages * 4096,
        ensures
            final(queue)@ == self.published(old(queue)@),
    {
        proof {
            law_queue_parts_are_apart(self.layout.queue_size);
        }
        let avail = self.layout.avail_offset;
        let idx = util::get_u16(queue, avail + 2);
        let slot = avail + 4 + 2 * (idx % self.layout.queue_size) as usize;
        util::put_u16(queue, slot, 0);
        let next: u16 = if idx == u16::MAX { 0 } else { idx + 1 };
        util::put_u16(queue, avail + 2, next);
    }

    /// The queue after a request was laid out and made available.
    pub open spec fn requested(&self, queue: Seq<u8>, device_writes: bool) -> Seq<u8> {
        self.published(util::splice(queue, 0, chain_bytes(self.buf_phys, device_writes)))
    }

    /// Asks for sector `lba`: the request is laid out and made available. Returns the write that
    /// tells the device so.
    pub fn submit_read(&self, queue: &mut [u8], buf: &mut [u8], lba: u64) -> (w: PortWrite)
        requires
            self.wf(),
            old(queue)@.len() == self.layout.pages * 4096,
            old(buf)@.len() == 4096,
        ensures
            final(queue)@ == self.requested(old(queue)@, true),
            final(buf)@ == util::splice(old(buf)@, 0, header_bytes(VIRTIO_BLK_T_IN, lba)),
            w == (PortWrite::Word { port: (self.io_base + REG_QUEUE_NOTIFY) as u16, value: 0 }),
    {
        self.setup_chain(queue, buf, VIRTIO_BLK_T_IN, lba, true);
        self.publish(queue);
        self.notify()
    }

    /// Asks for `data` to be written to sector `lba`: the data is put into the buffer, and the
    /// request is laid out and made available. Returns the write that tells the device so.
    pub fn submit_write(
        &self,
        queue: &mut [u8],
        buf: &mut [u8],
        lba: u64,
        data: &[u8; SECTOR_SIZE],
    ) -> (w: PortWrite)
        requires
            self.wf(),
            old(queue)@.len() == self.layout.pages * 4096,
            old(buf)@.len() == 4096,
        ensures
            final(queue)@ == self.requested(old(queue)@, false),
            final(buf)@ == util::splice(
                util::splice(old(buf)@, BUF_DATA as int, data@),
                0,
                header_bytes(VIRTIO_BLK_T_OUT, lba),
            ),
            w == (PortWrite::Word { port: (self.io_base + REG_QUEUE_NOTIFY) as u16, value: 0 }),
    {
        util::copy_into(buf, BUF_DATA, data.as_slice());
        self.setup_chain(queue, buf, VIRTIO_BLK_T_OUT, lba, false);
        self.publish(queue);
        self.notify()
    }

    /// How far the device is with its answers, by what it has left in the queue.
    pub fn used_idx(&self, queue: &[u8]) -> (n: u16)
        requires
            self.wf(),
            queue@.len() == self.layout.pages * 4096,
        ensures
            n == util::le16(queue@, self.layout.used_offset + 2),
    {
        proof {
            law_queue_parts_are_apart(self.layout.queue_size);
        }
        util::get_u16(queue, self.layout.used_offset + 2)
    }

    /// What the device has left in the buffer of a read that is done: the sector, or the error.
    pub fn read_result(buf: &[u8], out: &mut [u8; SECTOR_SIZE]) -> (r: Result<(), BlkError>)
        requires
            buf@.len() == 4096,
        ensures
            r == (if buf@[BUF_STATUS as int] == 0 {
                Ok(())
            } else {
                Err(BlkError::DeviceError(buf@[BUF_STATUS as int]))
            }),
            final(out)@ == (if r is Ok {
                buf@.subrange(BUF_DATA as int, BUF_DATA + SECTOR_SIZE)
            } else {
                old(out)@
            }),
    {
        match Self::outcome(buf[BUF_STATUS]) {
            Err(e) => Err(e),
            Ok(_) => {
                let mut i: usize = 0;
                while i < SECTOR_SIZE
                    invariant
                        i <= SECTOR_SIZE,
                        buf@.len() == 4096,
                        forall|j: int| 0 <= j < i ==> #[trigger] out@[j] == buf@[BUF_DATA + j],
                    decreases SECTOR_SIZE - i,
                {
                    out[i] = buf[BUF_DATA + i];
                    i += 1;
                }
                assert(out@ =~= buf@.subrange(BUF_DATA as int, BUF_DATA + SECTOR_SIZE));
                Ok(())
            },
        }
    }

    /// The write that tells the device that there is a request.
    pub fn notify(&self) -> (w: PortWrite)
        requires
            self.wf(),
        ensures
            w == (PortWrite::Word { port: (self.io_base + REG_QUEUE_NOTIFY) as u16, value: 0 }),
    {
        PortWrite::Word { port: self.io_base + REG_QUEUE_NOTIFY, value: 0 }
    }

    /// Whether the request is done, by how far the device says it is.
    pub fn completed(&mut self, used_idx: u16) -> (r: bool)
        ensures
            r == (used_idx != old(self).last_used_idx),
            *final(self) == (VirtioBlk { last_used_idx: used_idx, ..*old(self) }),
    {
        if used_idx != self.last_used_idx {
            self.last_used_idx = used_idx;
            true
        } else {
            false
        }
    }

    /// What the status that the device has left says of a request.
    pub fn outcome(status: u8) -> (r: Result<(), BlkError>)
        ensures
            r == (if status == 0 {
                Ok(())
            } else {
                Err(BlkError::DeviceError(status))
            }),
    {
        if status != 0 {
            Err(BlkError::DeviceError(status))
        } else {
            Ok(())
        }
    }

    /// Whether there is such a sector.
    pub fn has_sector(&self, lba: u64) -> (r: bool)
        ensures
            r == (lba < self.capacity_sectors),
    {
        lba < self.capacity_sectors
    }
}

/// The parts of a queue do not overlap and lie within its pages; the used ring starts at a page.
/// Every entry of the available ring lies within that ring.
pub proof fn law_queue_parts_are_apart(n: u16)
    ensures
        ({
            let l = layout_of(n);
            &&& l.avail_offset == 16 * n
            &&& l.avail_offset + 6 + 2 * n <= l.used_offset
            &&& l.used_offset % 4096 == 0
            &&& l.used_offset + 6 + 8 * n <= l.pages * 4096
            &&& l.pages * 4096 < l.used_offset + 6 + 8 * n + 4096
            &&& forall|idx: u16|
                n > 0 ==> l.avail_offset + 4 + 2 * (#[trigger] (idx % n)) + 2 <= l.used_offset
        }),
{
    let l = layout_of(n);
    let used = page_round(18 * n + 6);
    assert(used <= 18 * 65535 + 6 + 4095);
    assert(page_round(used + 6 + 8 * n) / 4096 * 4096 == page_round(used + 6 + 8 * n));
}

/// The parts of a request lie apart in its buffer, and the device may write to the data of a read
/// and to the status only.
pub proof fn law_request_parts_are_apart(buf: u64, device_writes: bool)
    requires
        buf + 4096 <= u64::MAX,
    ensures
        BUF_HEADER + 16 <= BUF_STATUS < BUF_DATA,
        BUF_DATA + SECTOR_SIZE <= 4096,
        ({
            let c = chain_bytes(buf, device_writes);
            &&& c.len() == 48
            &&& util::le64(c.subrange(0, 16), 0) == buf + BUF_HEADER
            &&& util::le64(c.subrange(16, 32), 0) == buf + BUF_DATA
            &&& util::le64(c.subrange(32, 48), 0) == buf + BUF_STATUS
            &&& util::le16(c.subrange(0, 16), 12) == VIRTQ_DESC_F_NEXT
            &&& util::le16(c.subrange(16, 32), 12) == (if device_writes {
                3int
            } else {
                1int
            })
            &&& util::le16(c.subrange(32, 48), 12) == VIRTQ_DESC_F_WRITE
        }),
{
    let c = chain_bytes(buf, device_writes);
    let f: u16 = if device_writes {
        3
    } else {
        VIRTQ_DESC_F_NEXT
    };
    let d0 = desc_bytes((buf + BUF_HEADER) as u64, 16, VIRTQ_DESC_F_NEXT, 1);
    let d1 = desc_bytes((buf + BUF_DATA) as u64, SECTOR_SIZE as u32, f, 2);
    let d2 = desc_bytes((buf + BUF_STATUS) as u64, 1, VIRTQ_DESC_F_WRITE, 0);
    assert(c.subrange(0, 16) =~= d0);
    assert(c.subrange(16, 32) =~= d1);
    assert(c.subrange(32, 48) =~= d2);
    lemma_desc((buf + BUF_HEADER) as u64, 16, VIRTQ_DESC_F_NEXT, 1);
    lemma_desc((buf + BUF_DATA) as u64, SECTOR_SIZE as u32, f, 2);
    lemma_desc((buf + BUF_STATUS) as u64, 1, VIRTQ_DESC_F_WRITE, 0);
}

/// Address and flags of a descriptor read back.
proof fn lemma_desc(addr: u64, len: u32, flags: u16, next: u16)
    ensures
        desc_bytes(addr, len, flags, next).len() == 16,
        util::le64(desc_bytes(addr, len, flags, next), 0) == addr,
        util::le16(desc_bytes(addr, len, flags, next), 12) == flags,
{
    let d = desc_bytes(addr, len, flags, next);
    util::lemma_le64_enc64(addr);
    util::lemma_le16_enc16(flags);
    assert(forall|j: int| 0 <= j < 8 ==> d[j] == util::enc64(addr)[j]);
    assert(d[12] == util::enc16(flags)[0]);
    assert(d[13] == util::enc16(flags)[1]);
}

/// The used ring starts at the first page behind the rings before it, and the queue takes no page
/// more than it needs. At first all of it is zero but for the flag that no interrupts are wanted.
pub proof fn law_fresh_queue_wants_no_interrupts(n: u16, i: int)
    requires
        n > 0,
    ensures
        layout_of(n).used_offset < 18 * n + 6 + 4096,
        queue_start(n).len() == 4096 * layout_of(n).pages,
        queue_start(n)[16 * n] == 1,
        0 <= i < queue_start(n).len() && i != 16 * n ==> queue_start(n)[i] == 0,
{
    law_queue_parts_are_apart(n);
    let used = page_round(18 * n + 6);
    assert(used <= 18 * 65535 + 6 + 4095);
}

} // verus!
