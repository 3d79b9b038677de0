//! The keyboard: bytes that it has sent wait in a queue until they are decoded, and what was typed
//! goes to the console.

use crate::drivers::console::{self, Console, ConsoleView};
use crate::drivers::vga::{ScreenView, Writer};
use crate::sched::queue::{self, new_queue, pop_item, push_item};
use crossbeam_queue::ArrayQueue;
use pc_keyboard::layouts::Us104Key;
use pc_keyboard::{DecodedKey, HandleControl, PS2Keyboard, ScancodeSet1};
use vstd::prelude::*;

verus! {

/// How many bytes wait at most.
pub const QUEUE_SIZE: usize = 128;

/// The decoder of what the keyboard sends, with its layout and its set of codes.
#[verifier::external_body]
pub struct Decoder {
    keyboard: PS2Keyboard<Us104Key, ScancodeSet1>,
}

/// The bytes that a decoder was given since it was made.
pub uninterp spec fn heard(d: Decoder) -> Seq<u8>;

/// The character that the last of the bytes that a keyboard has sent stands for, if any. It depends
/// on the bytes before it: which keys are held, and whether a code goes on.
pub uninterp spec fn typed(bytes: Seq<u8>) -> Option<u32>;

/// A decoder that was given nothing yet. Calls `pc_keyboard::PS2Keyboard::new`; the control keys
/// are keys like any other.
#[verifier::external_body]
fn new_decoder() -> (d: Decoder)
    ensures
        heard(d) == Seq::<u8>::empty(),
{
    let set = ScancodeSet1::new();
    Decoder { keyboard: PS2Keyboard::new(set, Us104Key, HandleControl::Ignore) }
}

/// Gives a decoder a byte. Calls `pc_keyboard::PS2Keyboard::add_byte` and, where that yields an
/// event, `pc_keyboard::PS2Keyboard::process_keyevent`. Both depend on the bytes since the decoder
/// was made alone. Keys that stand for no character of Unicode yield none.
#[verifier::external_body]
fn feed(d: &mut Decoder, byte: u8) -> (r: Option<u32>)
    ensures
        heard(*final(d)) == heard(*old(d)).push(byte),
        r == typed(heard(*final(d))),
{
    let event = d.keyboard.add_byte(byte).ok()??;
    match d.keyboard.process_keyevent(event)? {
        DecodedKey::Unicode(c) => Some(c as u32),
        DecodedKey::RawKey(_) => None,
    }
}

/// What became of a byte that the keyboard has sent.
#[derive(Debug, Clone, Copy, PartialEq, Eq, Structural)]
pub enum Added {
    /// It waits; who waits for it is to be woken.
    Stored,
    /// The queue is full: it is lost.
    Full,
    /// There is no queue yet: it is lost.
    NoQueue,
}

/// The bytes that wait, once there is a queue for them.
pub struct ScancodeStream {
    pub queue: Option<ArrayQueue<u64>>,
}

impl ScancodeStream {
    /// What waits, the oldest first.
    pub open spec fn waiting(&self) -> Seq<u64> {
        match self.queue {
            Some(q) => queue::queued(q),
            None => Seq::empty(),
        }
    }

    /// Bytes wait in a queue of the given size.
    pub open spec fn wf(&self) -> bool {
        self.queue matches Some(q) ==> {
            &&& queue::queue_limit(q) == QUEUE_SIZE
            &&& queue::queued(q).len() <= QUEUE_SIZE
            &&& forall|i: int| 0 <= i < queue::queued(q).len() ==> #[trigger] queue::queued(q)[i]
                <= 0xFF
        }
    }

    /// No queue yet.
    pub fn new() -> (s: ScancodeStream)
        ensures
            s.wf(),
            s.queue is None,
    {
        ScancodeStream { queue: None }
    }

    /// Makes the queue, unless there is one.
    pub fn init(&mut self)
        requires
            old(self).wf(),
        ensures
            final(self).wf(),
            final(self).queue is Some,
            final(self).waiting() == old(self).waiting(),
    {
        if self.queue.is_none() {
            let q = new_queue(QUEUE_SIZE);
            self.queue = Some(q);
        }
    }

    /// Takes in a byte from the keyboard.
    pub fn add_scancode(&mut self, scancode: u8) -> (r: Added)
        requires
            old(self).wf(),
        ensures
            final(self).wf(),
            final(self).queue is Some == old(self).queue is Some,
            r == (if old(self).queue is None {
                Added::NoQueue
            } else if old(self).waiting().len() < QUEUE_SIZE {
                Added::Stored
            } else {
                Added::Full
            }),
            final(self).waiting() == (if r is Stored {
                old(self).waiting().push(scancode as u64)
            } else {
                old(self).waiting()
            }),
    {
        match &mut self.queue {
            None => Added::NoQueue,
            Some(q) => {
                if push_item(q, scancode as u64) {
                    Added::Stored
                } else {
                    Added::Full
                }
            },
        }
    }

    /// Takes the oldest byte, if any waits.
    pub fn poll_next(&mut self) -> (r: Option<u8>)
        requires
            old(self).wf(),
            old(self).queue is Some,
        ensures
            final(self).wf(),
            final(self).queue is Some,
            match r {
                Some(b) => old(self).waiting().len() > 0 && b == old(self).waiting()[0]
                    && final(self).waiting() == old(self).waiting().skip(1),
                None => old(self).waiting().len() == 0 && final(self).waiting() == old(
                    self,
                ).waiting(),
            },
    {
        match &mut self.queue {
            None => None,
            Some(q) => {
                match pop_item(q) {
                    Some(b) => Some(b as u8),
                    None => None,
                }
            },
        }
    }
}

/// The decoder and the console that it feeds.
pub struct InputLine {
    pub decoder: Decoder,
}

/// The console after a decoded character, if any: only characters of ASCII are fed to it. And
/// whether input has become readable.
pub open spec fn console_after(c: ConsoleView, key: Option<u32>) -> (ConsoleView, bool) {
    match key {
        Some(ch) => if ch < 0x80 {
            c.fed(ch as u8)
        } else {
            (c, false)
        },
        None => (c, false),
    }
}

/// The screen after a decoded character, if any, was fed to the console `c`.
pub open spec fn screen_after(screen: ScreenView, c: ConsoleView, key: Option<u32>) -> ScreenView {
    match key {
        Some(ch) => if ch < 0x80 {
            console::echoed(screen, c.line, ch as u8)
        } else {
            screen
        },
        None => screen,
    }
}

/// Feeds a decoded character to the console, which shows it.
pub fn take_key(console: &mut Console, screen: &mut Writer, key: Option<u32>) -> (r: bool)
    requires
        old(screen)@.wf(),
    ensures
        (final(console)@, r) == console_after(old(console)@, key),
        final(screen)@.wf(),
        final(screen)@ == screen_after(old(screen)@, old(console)@, key),
{
    match key {
        Some(ch) => {
            if ch < 0x80 {
                console.feed_char(screen, ch as u8)
            } else {
                false
            }
        },
        None => false,
    }
}

impl InputLine {
    /// Nothing typed yet.
    pub fn new() -> (l: InputLine)
        ensures
            heard(l.decoder) == Seq::<u8>::empty(),
    {
        InputLine { decoder: new_decoder() }
    }

    /// Decodes a byte from the keyboard and feeds what it stands for to the console, which shows
    /// it. Returns whether input has become readable.
    pub fn process_input(&mut self, console: &mut Console, screen: &mut Writer, scancode: u8) -> (r:
        bool)
        requires
            old(screen)@.wf(),
        ensures
            final(screen)@.wf(),
            final(screen)@ == screen_after(
                old(screen)@,
                old(console)@,
                typed(heard(old(self).decoder).push(scancode)),
            ),
            heard(final(self).decoder) == heard(old(self).decoder).push(scancode),
            (final(console)@, r) == console_after(
                old(console)@,
                typed(heard(old(self).decoder).push(scancode)),
            ),
    {
        let key = feed(&mut self.decoder, scancode);
        take_key(console, screen, key)
    }
}

} // verus!
