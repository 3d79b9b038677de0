use ferros::arch::interrupts::InterruptIndex;
use ferros::drivers::console::Console;
use ferros::drivers::keyboard::{take_key, Added, InputLine, ScancodeStream};
use ferros::drivers::pci::{Bar, ConfigSpace, PciDevice};
use ferros::drivers::ports::PortWrite;
use ferros::drivers::serial::SerialPort;
use ferros::drivers::vga::{write_bytes, Color, ColorCode, Writer};
use ferros::drivers::virtio_blk::{write_sector, BlkError, Disk};
use ferros::drivers::virtio_net::VirtioNet;
use ferros::drivers::virtio_queue::{InitError, VirtioBlk};
use ferros::drivers::write_back::{Action, WriteBack};
use ferros::drivers::{virtio_net, virtio_queue};
use ferros::mm::frame::{BootInfoFrameAllocator, MemoryRegion};
use ferros::qemu::QemuExitCode;

// ---- screen ----

fn row(w: &Writer, r: usize) -> String {
    w.cells[80 * r..80 * r + 80].iter().map(|c| c.ascii as char).collect::<String>().trim_end().to_string()
}

#[test]
fn colours_make_an_attribute() {
    assert_eq!(ColorCode::new(Color::White, Color::Black), ColorCode(0x0f));
    assert_eq!(ColorCode::new(Color::Yellow, Color::Blue), ColorCode(0x1e));
    assert_eq!(Color::LightGray.code(), 7);
}

#[test]
fn text_appears_in_the_bottom_row() {
    let mut w = Writer::new();
    w.write_string("hello");
    assert_eq!(row(&w, 24), "hello");
    assert_eq!(w.column, 5);
    assert_eq!(row(&w, 23), "");
}

#[test]
fn line_feed_scrolls() {
    let mut w = Writer::new();
    w.write_string("one\ntwo");
    assert_eq!(row(&w, 23), "one");
    assert_eq!(row(&w, 24), "two");
    w.new_line();
    assert_eq!(row(&w, 22), "one");
    assert_eq!(row(&w, 24), "");
    assert_eq!(w.column, 0);
}

#[test]
fn long_lines_are_broken_at_the_edge() {
    let mut w = Writer::new();
    write_bytes(&mut w, &[b'x'; 81]);
    assert_eq!(row(&w, 23), "x".repeat(80));
    assert_eq!(row(&w, 24), "x");
}

#[test]
fn bytes_that_cannot_be_shown_are_replaced() {
    let mut w = Writer::new();
    write_bytes(&mut w, &[0x07, 0xc3]);
    assert_eq!((w.cells[1920].ascii, w.cells[1921].ascii), (0xfe, 0xfe));
    w.write_byte(b'A');
    assert_eq!(w.cells[1922].ascii, b'A');
    w.clear_row(24);
    assert_eq!(row(&w, 24), "");
}

// ---- console input ----

#[test]
fn a_line_becomes_readable_when_it_ends() {
    let mut c = Console::new();
    let mut w = Writer::new();
    assert!(!c.feed_char(&mut w, b'a'));
    assert!(!c.feed_char(&mut w, b'x'));
    assert!(!c.feed_char(&mut w, 0x08));
    assert!(c.take_ready(10).is_empty());
    assert!(!c.feed_char(&mut w, b'b'));
    assert!(c.feed_char(&mut w, b'\n'));
    assert_eq!(c.take_ready(2), b"ab");
    assert_eq!(c.take_ready(10), b"\n");
}

#[test]
fn typed_characters_are_shown() {
    let mut c = Console::new();
    let mut w = Writer::new();
    for b in b"ax\x08b" {
        c.feed_char(&mut w, *b);
    }
    assert_eq!((row(&w, 24), w.column), ("ab".to_string(), 2));
    c.feed_char(&mut w, b'\n');
    assert_eq!((row(&w, 23), row(&w, 24), w.column), ("ab".to_string(), "".to_string(), 0));
    c.feed_char(&mut w, 0x08);
    c.feed_char(&mut w, 0x1b);
    assert_eq!(w.cells[1920].ascii, 0xfe);
}

#[test]
fn backspace_on_an_empty_line_does_nothing() {
    let mut c = Console::new();
    let mut w = Writer::new();
    assert!(!c.feed_char(&mut w, 0x08));
    assert!(c.feed_char(&mut w, b'\n'));
    assert_eq!(c.take_ready(10), b"\n");
}

#[test]
fn unread_restores_the_input() {
    let mut c = Console::new();
    let mut w = Writer::new();
    for b in b"abc\n" {
        c.feed_char(&mut w, *b);
    }
    let taken = c.take_ready(3);
    c.unread(taken);
    assert_eq!(c.take_ready(10), b"abc\n");
}

#[test]
fn scancodes_become_characters() {
    let mut c = Console::new();
    let mut w = Writer::new();
    let mut line = InputLine::new();
    // Press and release of a, then of the enter key.
    for code in [0x1E, 0x9E, 0x1C] {
        let readable = line.process_input(&mut c, &mut w, code);
        assert_eq!(readable, code == 0x1C);
    }
    assert_eq!(c.take_ready(10), b"a\n");
}

#[test]
fn shift_makes_capitals() {
    let mut c = Console::new();
    let mut w = Writer::new();
    let mut line = InputLine::new();
    for code in [0x2A, 0x1E, 0x9E, 0xAA, 0x1E] {
        assert!(!line.process_input(&mut c, &mut w, code));
    }
    assert_eq!(c.line, b"Aa");
}

#[test]
fn only_ascii_reaches_the_console() {
    let mut c = Console::new();
    let mut w = Writer::new();
    assert!(!take_key(&mut c, &mut w, Some(0xE9)));
    assert!(!take_key(&mut c, &mut w, None));
    assert!(!take_key(&mut c, &mut w, Some(0x7A)));
    assert_eq!(c.line, b"z");
    assert!(take_key(&mut c, &mut w, Some(0x0A)));
}

#[test]
fn scancodes_wait_in_order() {
    let mut s = ScancodeStream::new();
    assert_eq!(s.add_scancode(1), Added::NoQueue);
    s.init();
    assert_eq!(s.add_scancode(2), Added::Stored);
    assert_eq!(s.add_scancode(3), Added::Stored);
    s.init();
    assert_eq!(s.poll_next(), Some(2));
    assert_eq!(s.poll_next(), Some(3));
    assert_eq!(s.poll_next(), None);
}

#[test]
fn scancodes_beyond_the_queue_are_lost() {
    let mut s = ScancodeStream::new();
    s.init();
    for i in 0..128u8 {
        assert_eq!(s.add_scancode(i), Added::Stored);
    }
    assert_eq!(s.add_scancode(200), Added::Full);
    assert_eq!(s.poll_next(), Some(0));
    assert_eq!(s.add_scancode(201), Added::Stored);
}

// ---- the bus ----

/// Registers of a function: vendor and device, class, header type, and the first base address.
fn function(vendor: u16, device: u16, header: u8, bar0: u32) -> Vec<u32> {
    let mut w = vec![0u32; 16];
    w[0] = vendor as u32 | (device as u32) << 16;
    w[2] = 0x0108_0200;
    w[3] = (header as u32) << 16;
    w[4] = bar0;
    w
}

fn device(bars: [u32; 6]) -> PciDevice {
    PciDevice {
        bus: 0,
        slot: 0,
        func: 0,
        vendor_id: 0,
        device_id: 0,
        class: 0,
        subclass: 0,
        prog_if: 0,
        header_type: 0,
        bars,
    }
}

#[test]
fn base_address_registers() {
    let d = device([0xC001, 0xFEBF_1000, 0xE000_000C, 0x0000_0001, 0, 0xFE00_0004]);
    assert_eq!(d.bar(0), Bar::Io { base: 0xC000 });
    assert_eq!(d.bar(1), Bar::Mem { base: 0xFEBF_1000, prefetchable: false, is_64: false });
    assert_eq!(d.bar(2), Bar::Mem { base: 0x1_E000_0000, prefetchable: true, is_64: true });
    assert_eq!(d.bar(4), Bar::Absent);
    assert_eq!(d.bar(5), Bar::Mem { base: 0xFE00_0000, prefetchable: false, is_64: true });
}

#[test]
fn present_functions_are_listed() {
    let mut cs = ConfigSpace::new();
    cs.put(0, 1, 0, function(0x8086, 0x7000, 0x80, 0));
    cs.put(0, 1, 3, function(0x8086, 0x7113, 0, 0));
    cs.put(0, 2, 0, function(0x1AF4, 0x1001, 0, 0xC001));
    // A second function of a device that has only one is not looked at.
    cs.put(0, 2, 1, function(0x1111, 0x2222, 0, 0));
    cs.put(4, 0, 0, function(0x1234, 0x5678, 0, 0));
    let places: Vec<(u8, u8, u8)> = cs.enumerate().iter().map(|d| (d.bus, d.slot, d.func)).collect();
    assert_eq!(places, vec![(0, 1, 0), (0, 1, 3), (0, 2, 0), (4, 0, 0)]);
    let d = cs.find(0x1AF4, 0x1001).unwrap();
    assert_eq!((d.class, d.subclass, d.prog_if, d.header_type), (1, 8, 2, 0));
    assert_eq!(d.bars[0], 0xC001);
    assert!(cs.find(0x1111, 0x2222).is_none());
    assert_eq!(cs.config_read_u32(2 * 8, 0x10), 0xC001);
    assert_eq!(cs.config_read_u32(31 * 8, 0), 0xFFFF_FFFF);
}

// ---- disk ----

#[test]
fn disk_is_located_by_its_ports() {
    let mut cs = ConfigSpace::new();
    assert_eq!(virtio_queue::locate(&cs).err(), Some(InitError::NotFound));
    cs.put(0, 3, 0, function(0x1AF4, 0x1001, 0, 0xFEBF_1000));
    let d = virtio_queue::locate(&cs).unwrap();
    assert_eq!(virtio_queue::ports(&d), Err(InitError::NoPorts));
    cs.put(0, 2, 0, function(0x1AF4, 0x1001, 0, 0xC001));
    let d = virtio_queue::locate(&cs).unwrap();
    assert_eq!((d.slot, virtio_queue::ports(&d)), (2, Ok(0xC000)));
    assert_eq!(virtio_queue::enabled_command(0x102), 0x107);
}

#[test]
fn handshake_with_the_disk() {
    assert_eq!(
        virtio_queue::start(0xC000),
        vec![
            PortWrite::Byte { port: 0xC012, value: 0 },
            PortWrite::Byte { port: 0xC012, value: 1 },
            PortWrite::Byte { port: 0xC012, value: 3 },
        ]
    );
    assert_eq!(
        virtio_queue::select_queue(0xC000),
        vec![
            PortWrite::Long { port: 0xC004, value: 0 },
            PortWrite::Word { port: 0xC00E, value: 0 },
        ]
    );
    assert_eq!(
        virtio_queue::finish(0xC000, 0x5000),
        vec![
            PortWrite::Long { port: 0xC008, value: 5 },
            PortWrite::Byte { port: 0xC012, value: 7 },
        ]
    );
    assert_eq!(virtio_queue::give_up(0xC000), PortWrite::Byte { port: 0xC012, value: 0x80 });
}

#[test]
fn queue_parts_are_apart() {
    let l = virtio_queue::queue_layout(256);
    assert_eq!((l.avail_offset, l.used_offset, l.pages), (4096, 8192, 3));
    let q = virtio_queue::fresh_queue(256);
    assert_eq!(q.len(), 3 * 4096);
    assert_eq!((q[4096], q[4097], q[0]), (1, 0, 0));
}

#[test]
fn queue_memory_is_taken_from_the_frames() {
    let map = |frames: u64| {
        BootInfoFrameAllocator::init(vec![MemoryRegion { start_frame: 1, end_frame: 1 + frames, usable: true }])
    };
    assert_eq!(virtio_queue::take_memory(&mut map(9), 0), Err(InitError::NoQueue));
    assert_eq!(virtio_queue::take_memory(&mut map(2), 256), Err(InitError::NoQueueMemory));
    assert_eq!(virtio_queue::take_memory(&mut map(3), 256), Err(InitError::NoBufferMemory));
    assert_eq!(virtio_queue::take_memory(&mut map(4), 256), Ok((0x1000, 0x4000)));
}

#[test]
fn queue_is_handed_over_or_given_up() {
    let region = MemoryRegion { start_frame: 5, end_frame: 9, usable: true };
    let mut frames = BootInfoFrameAllocator::init(vec![region]);
    let (writes, memory) = virtio_queue::set_up_queue(&mut frames, 0xC000, 256);
    assert_eq!(memory, Ok((0x5000, 0x8000)));
    assert_eq!(writes, virtio_queue::finish(0xC000, 0x5000));
    let (writes, memory) = virtio_queue::set_up_queue(&mut frames, 0xC000, 256);
    assert_eq!(memory, Err(InitError::NoQueueMemory));
    assert_eq!(writes, vec![virtio_queue::give_up(0xC000)]);
}

fn disk() -> VirtioBlk {
    virtio_queue::ready(0xC000, 256, 0x1000, 0x4000, 100, 2)
}

#[test]
fn capacity_comes_in_two_halves() {
    let d = disk();
    assert_eq!(d.capacity_sectors, 0x2_0000_0064);
    assert!(d.has_sector(0x2_0000_0063) && !d.has_sector(0x2_0000_0064));
}

#[test]
fn read_request_layout() {
    let d = disk();
    let mut queue = virtio_queue::fresh_queue(256);
    let mut buf = vec![0xAAu8; 4096];
    assert_eq!(d.submit_read(&mut queue, &mut buf, 7), PortWrite::Word { port: 0xC010, value: 0 });
    assert_eq!(&buf[..17], &[0, 0, 0, 0, 0, 0, 0, 0, 7, 0, 0, 0, 0, 0, 0, 0, 0xFF]);
    assert_eq!(&queue[0..16], &[0x00, 0x40, 0, 0, 0, 0, 0, 0, 16, 0, 0, 0, 1, 0, 1, 0]);
    assert_eq!(&queue[16..32], &[0x00, 0x42, 0, 0, 0, 0, 0, 0, 0, 2, 0, 0, 3, 0, 2, 0]);
    assert_eq!(&queue[32..48], &[0x10, 0x40, 0, 0, 0, 0, 0, 0, 1, 0, 0, 0, 2, 0, 0, 0]);
    // One request is available: descriptor 0.
    assert_eq!(&queue[4096..4102], &[1, 0, 1, 0, 0, 0]);
}

#[test]
fn write_request_carries_the_data() {
    let d = disk();
    let mut queue = virtio_queue::fresh_queue(256);
    let mut buf = vec![0u8; 4096];
    let data = [0x5Au8; 512];
    d.submit_write(&mut queue, &mut buf, 1, &data);
    assert_eq!(buf[0], 1);
    assert_eq!(&buf[512..1024], &data[..]);
    assert_eq!(&queue[28..30], &[1, 0]);
}

#[test]
fn request_ends_when_the_device_has_used_it() {
    let mut d = disk();
    let mut queue = virtio_queue::fresh_queue(256);
    assert!(!d.completed(d.used_idx(&queue)));
    queue[8194] = 1;
    let idx = d.used_idx(&queue);
    assert!(d.completed(idx));
    assert!(!d.completed(idx));
    let mut buf = vec![0u8; 4096];
    buf[512] = 9;
    let mut out = [0u8; 512];
    assert_eq!(VirtioBlk::read_result(&buf, &mut out), Ok(()));
    assert_eq!(out[0], 9);
    buf[16] = 2;
    assert_eq!(VirtioBlk::read_result(&buf, &mut out), Err(BlkError::DeviceError(2)));
    assert_eq!(VirtioBlk::outcome(0), Ok(()));
    assert_eq!(VirtioBlk::outcome(1), Err(BlkError::DeviceError(1)));
}

// ---- carrying changes over ----

fn small_disk() -> Disk {
    Disk {
        online: true,
        sectors: (0..6).map(|i| [i; 512]).collect(),
        read_status: vec![0; 6],
        answers: Vec::new(),
        used: 0,
        write_status: vec![0; 6],
        log: Vec::new(),
    }
}

/// Carries the writes of a disk over to a device that gives `answers`, then accepts all. Returns
/// whether the call stands, and what was written where.
fn carry_over(disk: &mut Disk, answers: &[u8]) -> (bool, Vec<(usize, u8)>) {
    let mut back = WriteBack::new();
    let mut written = Vec::new();
    let mut answers = answers.iter().copied();
    let stands = loop {
        match back.next_action(disk) {
            Action::Write { lba, data } => {
                let status = answers.next().unwrap_or(0);
                if status == 0 {
                    written.push((lba, data[0]));
                }
                back.outcome(disk, status);
            },
            Action::Done => break true,
            Action::Again => break false,
        }
    };
    back.finish(disk);
    (stands, written)
}

#[test]
fn writes_reach_the_device_in_their_order() {
    let mut disk = small_disk();
    assert_eq!(carry_over(&mut disk, &[]), (true, vec![]));
    assert_eq!(write_sector(&mut disk, 4, &[9; 512]), Ok(()));
    assert_eq!(write_sector(&mut disk, 1, &[8; 512]), Ok(()));
    assert_eq!(write_sector(&mut disk, 4, &[7; 512]), Ok(()));
    assert_eq!(disk.log.len(), 3);
    assert_eq!((disk.log[2].lba, disk.log[2].old[0], disk.log[2].new[0]), (4, 9, 7));
    disk.write_status[5] = 1;
    assert_eq!(carry_over(&mut disk, &[]), (true, vec![(4, 9), (1, 8), (4, 7)]));
    assert_eq!(disk.sectors[4], [7; 512]);
    assert_eq!(disk.write_status, vec![0; 6]);
    assert_eq!(disk.log.len(), 0);
}

#[test]
fn refused_sector_puts_the_others_back() {
    let mut disk = small_disk();
    for lba in [2, 0, 4] {
        assert_eq!(write_sector(&mut disk, lba, &[7; 512]), Ok(()));
    }
    let (stands, written) = carry_over(&mut disk, &[0, 0, 1]);
    assert!(!stands);
    assert_eq!(written, vec![(2, 7), (0, 7), (0, 0), (2, 2)]);
    assert_eq!(disk.sectors, small_disk().sectors);
    // Made anew, the call learns of the refusal.
    assert_eq!(disk.answers, [0, 0, 1]);
    assert_eq!(write_sector(&mut disk, 2, &[7; 512]), Ok(()));
    assert_eq!(write_sector(&mut disk, 0, &[7; 512]), Ok(()));
    assert_eq!(write_sector(&mut disk, 4, &[7; 512]), Err(BlkError::DeviceError(1)));
    assert_eq!(write_sector(&mut disk, 4, &[6; 512]), Ok(()));
    // The first of the writes that were refused the last time or come later is refused too.
    let (stands, written) = carry_over(&mut disk, &[0, 0, 3]);
    assert!(!stands);
    assert_eq!(written, vec![(2, 7), (0, 7), (0, 0), (2, 2)]);
    assert_eq!(disk.answers, [0, 0, 1, 3]);
    // An earlier one.
    for lba in [2, 0, 4, 4] {
        let _ = write_sector(&mut disk, lba, &[7; 512]);
    }
    assert_eq!(carry_over(&mut disk, &[0, 5]), (false, vec![(2, 7), (2, 2)]));
    assert_eq!(disk.answers, [0, 5]);
    assert_eq!(carry_over(&mut disk, &[]), (true, vec![]));
    assert_eq!(disk.answers, []);
    assert_eq!(write_sector(&mut disk, 4, &[7; 512]), Ok(()));
}

#[test]
fn refused_restoring_write_leaves_those_before_it() {
    let mut disk = small_disk();
    for lba in [2, 0, 4] {
        assert_eq!(write_sector(&mut disk, lba, &[7; 512]), Ok(()));
    }
    let (stands, written) = carry_over(&mut disk, &[0, 0, 1, 2]);
    assert!(!stands);
    assert_eq!(written, vec![(2, 7), (0, 7)]);
    assert_eq!((disk.sectors[2][0], disk.sectors[0][0], disk.sectors[4][0]), (7, 7, 4));
    // Made anew, the call can write nothing.
    assert_eq!(disk.write_status, vec![2; 6]);
    assert_eq!(write_sector(&mut disk, 2, &[7; 512]), Err(BlkError::DeviceError(2)));
    assert_eq!(disk.log.len(), 0);
    assert_eq!(carry_over(&mut disk, &[]), (true, vec![]));
    assert_eq!(disk.write_status, vec![0; 6]);
}

// ---- network card ----

#[test]
fn network_card_is_brought_up() {
    let mut cs = ConfigSpace::new();
    assert_eq!(virtio_net::locate(&cs).err(), Some(InitError::NotFound));
    cs.put(0, 4, 0, function(0x1AF4, 0x1000, 0, 0));
    assert_eq!(virtio_queue::ports(&virtio_net::locate(&cs).unwrap()), Err(InitError::NoPorts));
    cs.put(0, 4, 0, function(0x1AF4, 0x1000, 0, 0xC0A1));
    assert_eq!(virtio_queue::ports(&virtio_net::locate(&cs).unwrap()), Ok(0xC0A0));
    assert_eq!(
        virtio_net::accept(0xC0A0, 0),
        (PortWrite::Byte { port: 0xC0B2, value: 0x80 }, false)
    );
    assert_eq!(
        virtio_net::accept(0xC0A0, 0x30),
        (PortWrite::Long { port: 0xC0A4, value: 0x20 }, true)
    );
    assert_eq!(virtio_net::mac_port(0xC0A0, 5), 0xC0B9);
    let mut n = VirtioNet::new();
    assert_eq!(n.mac(), None);
    n.ready([2, 0, 0, 0, 0, 1]);
    assert_eq!(n.mac(), Some([2, 0, 0, 0, 0, 1]));
}

// ---- the rest ----

#[test]
fn serial_port_is_set_up() {
    let p = SerialPort::new(0x3F8);
    let writes: Vec<(u16, u8)> = p
        .init()
        .iter()
        .map(|w| match w {
            PortWrite::Byte { port, value } => (*port, *value),
            _ => panic!("not a byte"),
        })
        .collect();
    assert_eq!(
        writes,
        vec![
            (0x3F9, 0),
            (0x3FB, 0x80),
            (0x3F8, 3),
            (0x3F9, 0),
            (0x3FB, 3),
            (0x3FA, 0xC7),
            (0x3FC, 0x0B)
        ]
    );
    assert_eq!(p.status_port(), 0x3FD);
    assert!(p.is_transmit_empty(0x20) && !p.is_transmit_empty(0xDF));
    assert_eq!(p.send(b'x'), PortWrite::Byte { port: 0x3F8, value: b'x' });
}

#[test]
fn interrupt_numbers_follow_the_controllers() {
    assert_eq!(InterruptIndex::Timer.as_u8(), 32);
    assert_eq!(InterruptIndex::Keyboard.as_u8(), 33);
}

#[test]
fn exit_codes() {
    assert_eq!(QemuExitCode::Success.code(), 0x10);
    assert_eq!(QemuExitCode::Failed.code(), 0x11);
}
