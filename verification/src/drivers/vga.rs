//! The text screen: 25 rows of 80 cells, each a character and a colour attribute. Text goes to
//! the bottom row; at its end, and at a line feed, the screen scrolls up by one row.

use vstd::prelude::*;
use vstd::string::StringSliceAdditionalSpecFns;

verus! {

/// Rows of the screen.
pub const BUFFER_HEIGHT: usize = 25;

/// Columns of the screen.
pub const BUFFER_WIDTH: usize = 80;

/// Cells of the screen.
pub const BUFFER_CELLS: usize = 2000;

/// Index of the first cell of the bottom row.
pub const BOTTOM: usize = 1920;

/// What stands in for a byte that cannot be shown.
pub const PLACEHOLDER: u8 = 0xfe;

/// The 16 colours of the adapter.
#[derive(Debug, Clone, Copy, PartialEq, Eq, Structural)]
pub enum Color {
    Black,
    Blue,
    Green,
    Cyan,
    Red,
    Magenta,
    Brown,
    LightGray,
    DarkGray,
    LightBlue,
    LightGreen,
    LightCyan,
    LightRed,
    Pink,
    Yellow,
    White,
}

impl Color {
    /// The code of a colour.
    pub open spec fn spec_code(self) -> u8 {
        match self {
            Color::Black => 0,
            Color::Blue => 1,
            Color::Green => 2,
            Color::Cyan => 3,
            Color::Red => 4,
            Color::Magenta => 5,
            Color::Brown => 6,
            Color::LightGray => 7,
            Color::DarkGray => 8,
            Color::LightBlue => 9,
            Color::LightGreen => 10,
            Color::LightCyan => 11,
            Color::LightRed => 12,
            Color::Pink => 13,
            Color::Yellow => 14,
            Color::White => 15,
        }
    }

    /// The code of a colour, as the adapter knows it.
    pub fn code(self) -> (c: u8)
        ensures
            c == self.spec_code(),
            c < 16,
    {
        match self {
            Color::Black => 0,
            Color::Blue => 1,
            Color::Green => 2,
            Color::Cyan => 3,
            Color::Red => 4,
            Color::Magenta => 5,
            Color::Brown => 6,
            Color::LightGray => 7,
            Color::DarkGray => 8,
            Color::LightBlue => 9,
            Color::LightGreen => 10,
            Color::LightCyan => 11,
            Color::LightRed => 12,
            Color::Pink => 13,
            Color::Yellow => 14,
            Color::White => 15,
        }
    }
}

/// The attribute of a cell: text colour in the low four bits, background in the high four.
#[derive(Debug, Clone, Copy, PartialEq, Eq, Structural)]
pub struct ColorCode(pub u8);

impl ColorCode {
    /// The attribute for a text and a background colour.
    pub fn new(fg: Color, bg: Color) -> (c: ColorCode)
        ensures
            c.0 == bg.spec_code() * 16 + fg.spec_code(),
    {
        ColorCode(bg.code() * 16 + fg.code())
    }
}

/// A cell of the screen.
#[derive(Debug, Clone, Copy, PartialEq, Eq, Structural)]
pub struct ScreenChar {
    pub ascii: u8,
    pub color: ColorCode,
}

/// The screen and the position in its bottom row.
#[derive(Clone)]
pub struct Writer {
    pub column: usize,
    pub color: ColorCode,
    /// The cells, row by row.
    pub cells: Vec<ScreenChar>,
}

/// What a [`Writer`] holds.
#[verifier::ext_equal]
pub struct ScreenView {
    pub column: int,
    pub color: ColorCode,
    pub cells: Seq<ScreenChar>,
}

impl View for Writer {
    type V = ScreenView;

    open spec fn view(&self) -> ScreenView {
        ScreenView { column: self.column as int, color: self.color, cells: self.cells@ }
    }
}

/// What is shown for a byte: printable ASCII and line feeds as they are, all else a placeholder.
pub open spec fn shown(b: u8) -> u8 {
    if 0x20 <= b <= 0x7e || b == 0x0a {
        b
    } else {
        PLACEHOLDER
    }
}

impl ScreenView {
    /// The screen has all its cells, and the position is in the row or right behind it.
    pub open spec fn wf(self) -> bool {
        self.cells.len() == BUFFER_CELLS && 0 <= self.column <= BUFFER_WIDTH
    }

    /// A blank cell.
    pub open spec fn blank(self) -> ScreenChar {
        ScreenChar { ascii: 0x20, color: self.color }
    }

    /// The screen scrolled up by one row, the position at the start of a blank bottom row.
    pub open spec fn scrolled(self) -> ScreenView {
        ScreenView {
            column: 0,
            cells: Seq::new(
                BUFFER_CELLS as nat,
                |i: int|
                    if i < BOTTOM {
                        self.cells[i + BUFFER_WIDTH]
                    } else {
                        self.blank()
                    },
            ),
            ..self
        }
    }

    /// The screen after one byte.
    pub open spec fn byte_written(self, b: u8) -> ScreenView {
        if b == 0x0a {
            self.scrolled()
        } else {
            let s = if self.column >= BUFFER_WIDTH {
                self.scrolled()
            } else {
                self
            };
            ScreenView {
                column: s.column + 1,
                cells: s.cells.update(BOTTOM + s.column, ScreenChar { ascii: b, color: s.color }),
                ..s
            }
        }
    }

    /// The screen with the last character of the bottom row taken back, if there is any.
    pub open spec fn rubbed_out(self) -> ScreenView {
        if self.column == 0 {
            self
        } else {
            ScreenView {
                column: self.column - 1,
                cells: self.cells.update(BOTTOM + self.column - 1, self.blank()),
                ..self
            }
        }
    }

    /// The screen after `bytes`, each as it is shown.
    pub open spec fn bytes_written(self, bytes: Seq<u8>) -> ScreenView
        decreases bytes.len(),
    {
        if bytes.len() == 0 {
            self
        } else {
            self.bytes_written(bytes.drop_last()).byte_written(shown(bytes.last()))
        }
    }
}

impl Writer {
    /// A blank screen, white on black.
    pub fn new() -> (w: Writer)
        ensures
            w@.wf(),
            w@.column == 0,
            w@.color.0 == 0x0f,
            forall|i: int| 0 <= i < BUFFER_CELLS ==> w@.cells[i] == w@.blank(),
    {
        let color = ColorCode::new(Color::White, Color::Black);
        let mut cells: Vec<ScreenChar> = Vec::new();
        let mut i: usize = 0;
        while i < BUFFER_CELLS
            invariant
                i <= BUFFER_CELLS,
                cells@.len() == i,
                forall|j: int| 0 <= j < i ==> cells@[j] == (ScreenChar { ascii: 0x20, color }),
            decreases BUFFER_CELLS - i,
        {
            cells.push(ScreenChar { ascii: 0x20, color });
            i += 1;
        }
        Writer { column: 0, color, cells }
    }

    /// Puts one byte on the screen; a line feed scrolls.
    pub fn write_byte(&mut self, byte: u8)
        requires
            old(self)@.wf(),
        ensures
            final(self)@.wf(),
            final(self)@ == old(self)@.byte_written(byte),
    {
        if byte == 0x0a {
            self.new_line();
        } else {
            if self.column >= BUFFER_WIDTH {
                self.new_line();
            }
            let at = BOTTOM + self.column;
            self.cells.set(at, ScreenChar { ascii: byte, color: self.color });
            self.column += 1;
        }
    }

    /// Takes the last character of the bottom row back.
    pub fn rub_out(&mut self)
        requires
            old(self)@.wf(),
        ensures
            final(self)@.wf(),
            final(self)@ == old(self)@.rubbed_out(),
    {
        if self.column > 0 {
            self.column -= 1;
            let at = BOTTOM + self.column;
            self.cells.set(at, ScreenChar { ascii: 0x20, color: self.color });
        }
    }

    /// Puts a string on the screen. Bytes that cannot be shown are replaced.
    pub fn write_string(&mut self, s: &str)
        requires
            old(self)@.wf(),
        ensures
            final(self)@.wf(),
            final(self)@ == old(self)@.bytes_written(s.spec_bytes()),
    {
        write_bytes(self, s.as_bytes());
    }

    /// Scrolls the screen up by one row.
    pub fn new_line(&mut self)
        requires
            old(self)@.wf(),
        ensures
            final(self)@.wf(),
            final(self)@ == old(self)@.scrolled(),
    {
        let ghost before = self@;
        let mut i: usize = 0;
        while i < BOTTOM
            invariant
                before == old(self)@,
                before.wf(),
                i <= BOTTOM,
                self.cells@.len() == BUFFER_CELLS,
                self.color == before.color,
                forall|j: int| 0 <= j < i ==> self.cells@[j] == before.cells[j + BUFFER_WIDTH],
                forall|j: int| i <= j < BUFFER_CELLS ==> self.cells@[j] == before.cells[j],
            decreases BOTTOM - i,
        {
            let c = self.cells[i + BUFFER_WIDTH];
            self.cells.set(i, c);
            i += 1;
        }
        self.clear_row(BUFFER_HEIGHT - 1);
        self.column = 0;
        assert(self@ =~= before.scrolled());
    }

    /// Fills a row with blanks.
    pub fn clear_row(&mut self, row: usize)
        requires
            old(self).cells@.len() == BUFFER_CELLS,
            row < BUFFER_HEIGHT,
        ensures
            final(self)@.column == old(self)@.column,
            final(self)@.color == old(self)@.color,
            final(self)@.cells == Seq::new(
                BUFFER_CELLS as nat,
                |i: int|
                    if row * 80 <= i < row * 80 + 80 {
                        old(self)@.blank()
                    } else {
                        old(self)@.cells[i]
                    },
            ),
    {
        let ghost before = self@;
        let blank = ScreenChar { ascii: 0x20, color: self.color };
        let start = row * 80;
        let mut col: usize = 0;
        while col < BUFFER_WIDTH
            invariant
                before == old(self)@,
                col <= BUFFER_WIDTH,
                row < BUFFER_HEIGHT,
                start == row * 80,
                blank == before.blank(),
                self.column == before.column,
                self.color == before.color,
                self.cells@.len() == BUFFER_CELLS,
                forall|j: int|
                    0 <= j < BUFFER_CELLS ==> #[trigger] self.cells@[j] == (if start <= j < start
                        + col {
                        blank
                    } else {
                        before.cells[j]
                    }),
            decreases BUFFER_WIDTH - col,
        {
            self.cells.set(start + col, blank);
            col += 1;
        }
        assert(self.cells@ =~= Seq::new(
            BUFFER_CELLS as nat,
            |i: int|
                if row * 80 <= i < row * 80 + 80 {
                    before.blank()
                } else {
                    before.cells[i]
                },
        ));
    }
}

/// What is shown for a byte.
pub fn shown_byte(b: u8) -> (r: u8)
    ensures
        r == shown(b),
{
    if (0x20 <= b && b <= 0x7e) || b == 0x0a {
        b
    } else {
        PLACEHOLDER
    }
}

/// Puts raw bytes on the screen. Bytes that cannot be shown are replaced.
pub fn write_bytes(writer: &mut Writer, bytes: &[u8])
    requires
        old(writer)@.wf(),
    ensures
        final(writer)@.wf(),
        final(writer)@ == old(writer)@.bytes_written(bytes@),
{
    let ghost before = writer@;
    let mut i: usize = 0;
    assert(bytes@.take(0) =~= Seq::<u8>::empty());
    while i < bytes.len()
        invariant
            before == old(writer)@,
            writer@.wf(),
            i <= bytes@.len(),
            writer@ == before.bytes_written(bytes@.take(i as int)),
        decreases bytes@.len() - i,
    {
        let b = bytes[i];
        assert(bytes@.take(i + 1).drop_last() =~= bytes@.take(i as int));
        writer.write_byte(shown_byte(b));
        i += 1;
    }
    assert(bytes@.take(i as int) =~= bytes@);
}

/// A screen stays a screen.
pub proof fn lemma_bytes_written_wf(s: ScreenView, bytes: Seq<u8>)
    requires
        s.wf(),
    ensures
        s.bytes_written(bytes).wf(),
        s.bytes_written(bytes).color == s.color,
    decreases bytes.len(),
{
    if bytes.len() > 0 {
        lemma_bytes_written_wf(s, bytes.drop_last());
    }
}

/// Text that fits the rest of the bottom row appears there, and nothing else changes.
pub proof fn law_text_appears_in_bottom_row(s: ScreenView, text: Seq<u8>)
    requires
        s.wf(),
        s.column + text.len() <= BUFFER_WIDTH,
        forall|i: int| 0 <= i < text.len() ==> #[trigger] text[i] != 0x0a,
    ensures
        ({
            let t = s.bytes_written(text);
            &&& t.column == s.column + text.len()
            &&& forall|i: int|
                0 <= i < BUFFER_CELLS ==> #[trigger] t.cells[i] == (if BOTTOM + s.column <= i
                    < BOTTOM + s.column + text.len() {
                    ScreenChar { ascii: shown(text[i - BOTTOM - s.column]), color: s.color }
                } else {
                    s.cells[i]
                })
        }),
    decreases text.len(),
{
    lemma_bytes_written_wf(s, text);
    if text.len() > 0 {
        let init = text.drop_last();
        assert forall|i: int| 0 <= i < init.len() implies #[trigger] init[i] != 0x0a by {
            assert(text[i] != 0x0a);
        }
        law_text_appears_in_bottom_row(s, init);
        lemma_bytes_written_wf(s, init);
        assert(text[text.len() - 1] != 0x0a);
    }
}

/// A character that is taken back leaves the screen as if it had never been typed, where there was
/// room for it in the row and nothing stood in its place.
pub proof fn law_rubbed_out_character_is_gone(s: ScreenView, b: u8)
    requires
        s.wf(),
        s.column < BUFFER_WIDTH,
        s.cells[BOTTOM + s.column] == s.blank(),
        b != 0x0a,
    ensures
        s.byte_written(shown(b)).rubbed_out() == s,
{
    assert(s.byte_written(shown(b)).rubbed_out().cells =~= s.cells);
}

/// A line feed moves every row up by one and leaves a blank bottom row.
pub proof fn law_line_feed_scrolls(s: ScreenView, row: int, col: int)
    requires
        s.wf(),
        0 <= row < BUFFER_HEIGHT,
        0 <= col < BUFFER_WIDTH,
    ensures
        s.byte_written(0x0a).cells[row * 80 + col] == (if row < BUFFER_HEIGHT - 1 {
            s.cells[(row + 1) * 80 + col]
        } else {
            s.blank()
        }),
        s.byte_written(0x0a).column == 0,
{
}

} // verus!
