//! The serial port.

use crate::drivers::ports::PortWrite;
use vstd::prelude::*;

verus! {

/// First port of the first serial port.
pub const COM1_BASE: u16 = 0x3F8;

/// Bit of the line status: a byte can be handed over.
pub const TRANSMIT_EMPTY: u8 = 0x20;

/// A serial port, by the first of its eight ports.
#[derive(Debug, Clone, Copy)]
pub struct SerialPort {
    pub base: u16,
}

/// A write of a byte.
pub open spec fn out(port: int, value: u8) -> PortWrite {
    PortWrite::Byte { port: port as u16, value }
}

impl SerialPort {
    /// All ports of the serial port exist.
    pub open spec fn wf(&self) -> bool {
        self.base <= 0xFFF8
    }

    /// What brings the port up, in order: no interrupts, 38400 baud, eight bits without parity and
    /// one stop bit, buffers on and empty, and ready to send.
    pub open spec fn setup(&self) -> Seq<PortWrite> {
        seq![
            out(self.base + 1, 0x00),
            out(self.base + 3, 0x80),
            out(self.base as int, 0x03),
            out(self.base + 1, 0x00),
            out(self.base + 3, 0x03),
            out(self.base + 2, 0xC7),
            out(self.base + 4, 0x0B),
        ]
    }

    /// The serial port at `base`.
    pub fn new(base: u16) -> (p: SerialPort)
        ensures
            p.base == base,
    {
        SerialPort { base }
    }

    /// What brings the port up.
    pub fn init(&self) -> (writes: Vec<PortWrite>)
        requires
            self.wf(),
        ensures
            writes@ == self.setup(),
    {
        let mut w: Vec<PortWrite> = Vec::new();
        w.push(PortWrite::Byte { port: self.base + 1, value: 0x00 });
        w.push(PortWrite::Byte { port: self.base + 3, value: 0x80 });
        w.push(PortWrite::Byte { port: self.base, value: 0x03 });
        w.push(PortWrite::Byte { port: self.base + 1, value: 0x00 });
        w.push(PortWrite::Byte { port: self.base + 3, value: 0x03 });
        w.push(PortWrite::Byte { port: self.base + 2, value: 0xC7 });
        w.push(PortWrite::Byte { port: self.base + 4, value: 0x0B });
        assert(w@ =~= self.setup());
        w
    }

    /// The port of the line status.
    pub fn status_port(&self) -> (port: u16)
        requires
            self.wf(),
        ensures
            port == self.base + 5,
    {
        self.base + 5
    }

    /// Whether, by the line status, a byte can be handed over.
    pub fn is_transmit_empty(&self, line_status: u8) -> (r: bool)
        ensures
            r == (line_status & TRANSMIT_EMPTY != 0),
    {
        line_status & TRANSMIT_EMPTY != 0
    }

    /// What hands a byte over.
    pub fn send(&self, byte: u8) -> (w: PortWrite)
        ensures
            w == out(self.base as int, byte),
    {
        PortWrite::Byte { port: self.base, value: byte }
    }
}

} // verus!
