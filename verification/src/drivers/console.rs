//! The console: the line discipline between keyboard and readers of standard input.
//!
//! Characters are collected into a line and shown on the screen. A line that is complete becomes
//! input that can be read.

use crate::drivers::vga::{self, ScreenView, Writer};
use vstd::prelude::*;

verus! {

/// Line feed, which ends a line.
pub const LINE_FEED: u8 = 0x0a;

/// Erases the last character of the line.
pub const BACKSPACE: u8 = 0x08;

/// The console.
#[derive(Clone)]
pub struct Console {
    /// Input that can be read.
    pub ready: Vec<u8>,
    /// The line that is being typed.
    pub line: Vec<u8>,
}

/// What a [`Console`] holds.
#[verifier::ext_equal]
pub struct ConsoleView {
    pub ready: Seq<u8>,
    pub line: Seq<u8>,
}

impl View for Console {
    type V = ConsoleView;

    open spec fn view(&self) -> ConsoleView {
        ConsoleView { ready: self.ready@, line: self.line@ }
    }
}

impl ConsoleView {
    /// How many bytes a read of at most `count` gets.
    pub open spec fn takes(self, count: u64) -> int {
        if count <= self.ready.len() {
            count as int
        } else {
            self.ready.len() as int
        }
    }

    /// The console after a character was typed, and whether input has become readable.
    pub open spec fn fed(self, b: u8) -> (ConsoleView, bool) {
        if b == LINE_FEED {
            (
                ConsoleView { ready: self.ready + self.line.push(b), line: Seq::empty() },
                true,
            )
        } else if b == BACKSPACE {
            (
                ConsoleView {
                    line: if self.line.len() > 0 {
                        self.line.drop_last()
                    } else {
                        self.line
                    },
                    ..self
                },
                false,
            )
        } else {
            (ConsoleView { line: self.line.push(b), ..self }, false)
        }
    }
}

/// The screen once a character was typed behind `line`: the character as it is shown, a line feed
/// as a new row. A character that is erased is taken back.
pub open spec fn echoed(screen: ScreenView, line: Seq<u8>, b: u8) -> ScreenView {
    if b != BACKSPACE {
        screen.byte_written(vga::shown(b))
    } else if line.len() > 0 {
        screen.rubbed_out()
    } else {
        screen
    }
}

impl Console {
    /// A console without input.
    pub fn new() -> (c: Console)
        ensures
            c@ == (ConsoleView { ready: Seq::empty(), line: Seq::empty() }),
    {
        let c = Console { ready: Vec::new(), line: Vec::new() };
        assert(c@ =~= (ConsoleView { ready: Seq::empty(), line: Seq::empty() }));
        c
    }

    /// Takes at most `count` bytes of input.
    pub fn take_ready(&mut self, count: u64) -> (v: Vec<u8>)
        ensures
            v@ == old(self)@.ready.take(old(self)@.takes(count)),
            final(self)@ == (ConsoleView {
                ready: old(self)@.ready.skip(old(self)@.takes(count)),
                ..old(self)@
            }),
    {
        let len = self.ready.len();
        let n: usize = if count <= len as u64 { count as usize } else { len };
        let v = crate::util::slice_to_vec(self.ready.as_slice(), 0, n);
        let rest = crate::util::slice_to_vec(self.ready.as_slice(), n, len);
        assert(v@ =~= self.ready@.take(n as int));
        assert(rest@ =~= self.ready@.skip(n as int));
        self.ready = rest;
        v
    }

    /// Puts bytes that were taken back in front of the input.
    pub fn unread(&mut self, bytes: Vec<u8>)
        ensures
            final(self)@ == (ConsoleView { ready: bytes@ + old(self)@.ready, ..old(self)@ }),
    {
        let ghost before = self@;
        let mut joined = bytes;
        joined.extend_from_slice(self.ready.as_slice());
        self.ready = joined;
        assert(self@.ready =~= bytes@ + before.ready);
    }

    /// Takes a typed character in and shows it. Returns whether input has become readable.
    pub fn feed_char(&mut self, screen: &mut Writer, b: u8) -> (r: bool)
        requires
            old(screen)@.wf(),
        ensures
            (final(self)@, r) == old(self)@.fed(b),
            final(screen)@.wf(),
            final(screen)@ == echoed(old(screen)@, old(self)@.line, b),
    {
        let ghost before = self@;
        if b == LINE_FEED {
            self.line.push(b);
            self.ready.extend_from_slice(self.line.as_slice());
            self.line = Vec::new();
            assert(self@ =~= before.fed(b).0);
            screen.write_byte(b);
            true
        } else if b == BACKSPACE {
            if self.line.pop().is_some() {
                screen.rub_out();
            }
            assert(self@ =~= before.fed(b).0);
            false
        } else {
            self.line.push(b);
            screen.write_byte(vga::shown_byte(b));
            false
        }
    }
}

/// What is taken and put back is there again.
pub proof fn law_unread_restores(c: ConsoleView, count: u64)
    ensures
        c.ready.take(c.takes(count)) + c.ready.skip(c.takes(count)) == c.ready,
{
    assert(c.ready.take(c.takes(count)) + c.ready.skip(c.takes(count)) =~= c.ready);
}

} // verus!
