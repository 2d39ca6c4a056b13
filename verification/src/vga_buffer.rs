//! VGA text output.
//!
//! A [`Writer`] holds the screen as a value: what each cell shows, where the
//! next character goes, where the hardware cursor stands, and the rows that have
//! scrolled off the top. The kernel binary copies the cells to the text buffer
//! at `0xb8000` and performs the port accesses.

use vstd::prelude::*;
use vstd::string::StringSliceAdditionalSpecFns;

use crate::port::PortOp;

verus! {

/// Rows of the screen.
pub const BUFFER_HEIGHT: usize = 25;

/// Columns of the screen.
pub const BUFFER_WIDTH: usize = 80;

/// Cells of the screen.
pub const BUFFER_CELLS: usize = 2000;

/// Rows of history that are kept once they have scrolled off the top.
pub const SCROLLBACK_ROWS: usize = 200;

/// Cells of the history.
pub const SCROLLBACK_CELLS: usize = 16000;

/// CRT controller index port.
const CRTC_INDEX: u16 = 0x3D4;

/// CRT controller data port.
const CRTC_DATA: u16 = 0x3D5;

/// The colors of the VGA palette.
#[derive(Debug, Clone, Copy, PartialEq, Eq, Structural)]
pub enum Color {
    Black,
    Blue,
    Green,
    Cyan,
    Red,
    Magenta,
    Brown,
    LightGray,
    DarkGray,
    LightBlue,
    LightGreen,
    LightCyan,
    LightRed,
    Pink,
    Yellow,
    White,
}

impl Color {
    /// The number of the color.
    pub open spec fn number(self) -> u8 {
        match self {
            Color::Black => 0,
            Color::Blue => 1,
            Color::Green => 2,
            Color::Cyan => 3,
            Color::Red => 4,
            Color::Magenta => 5,
            Color::Brown => 6,
            Color::LightGray => 7,
            Color::DarkGray => 8,
            Color::LightBlue => 9,
            Color::LightGreen => 10,
            Color::LightCyan => 11,
            Color::LightRed => 12,
            Color::Pink => 13,
            Color::Yellow => 14,
            Color::White => 15,
        }
    }

    /// The number of the color.
    pub fn code(self) -> (code: u8)
        ensures
            code == self.number(),
            code < 16,
    {
        match self {
            Color::Black => 0,
            Color::Blue => 1,
            Color::Green => 2,
            Color::Cyan => 3,
            Color::Red => 4,
            Color::Magenta => 5,
            Color::Brown => 6,
            Color::LightGray => 7,
            Color::DarkGray => 8,
            Color::LightBlue => 9,
            Color::LightGreen => 10,
            Color::LightCyan => 11,
            Color::LightRed => 12,
            Color::Pink => 13,
            Color::Yellow => 14,
            Color::White => 15,
        }
    }
}

/// A foreground and a background color in one byte.
#[derive(Debug, Clone, Copy, PartialEq, Eq, Structural)]
pub struct ColorCode(pub u8);

impl ColorCode {
    /// The background color takes the high four bits, the foreground the low.
    pub fn new(foreground: Color, background: Color) -> (code: ColorCode)
        ensures
            code.0 == 16 * background.number() + foreground.number(),
            code.0 / 16 == background.number(),
            code.0 % 16 == foreground.number(),
    {
        ColorCode(16 * background.code() + foreground.code())
    }
}

/// One cell of the screen.
#[derive(Debug, Clone, Copy, PartialEq, Eq, Structural)]
pub struct ScreenChar {
    pub ascii_character: u8,
    pub color_code: ColorCode,
}

/// A row of cells.
pub type Row = Seq<ScreenChar>;

/// What a [`Writer`] stands for.
#[verifier::ext_equal]
pub ghost struct Screen {
    /// The rows that have scrolled off the top, the oldest first.
    pub history: Seq<Row>,
    /// The live screen.
    pub rows: Seq<Row>,
    /// The column that the next character goes to, in the bottom row.
    pub column: int,
    pub color: ColorCode,
    /// How many rows the view is scrolled up; 0 is the live view.
    pub scrolled: int,
    /// The linear position of the hardware cursor.
    pub cursor: int,
}

/// A blank row.
pub open spec fn blank_row(color: ColorCode) -> Row {
    Seq::new(80, |c: int| ScreenChar { ascii_character: 0x20, color_code: color })
}

/// The history once another row has scrolled off: the oldest row makes room.
pub open spec fn archived(history: Seq<Row>, row: Row) -> Seq<Row> {
    if history.len() < SCROLLBACK_ROWS {
        history.push(row)
    } else {
        history.drop_first().push(row)
    }
}

impl Screen {
    /// The live view.
    pub open spec fn live(self) -> Screen {
        Screen { scrolled: 0, ..self }
    }

    /// All rows move up, the top one into the history; the bottom row is blank,
    /// and the next character goes to its start.
    pub open spec fn new_line(self) -> Screen {
        Screen {
            history: archived(self.history, self.rows[0]),
            rows: self.rows.drop_first().push(blank_row(self.color)),
            column: 0,
            ..self
        }
    }

    /// A cell of the bottom row changes.
    pub open spec fn with_cell(self, column: int, byte: u8) -> Screen {
        let cell = ScreenChar { ascii_character: byte, color_code: self.color };
        Screen { rows: self.rows.update(24, self.rows[24].update(column, cell)), ..self }
    }

    /// A byte is written: a newline starts a new line, anything else goes to the
    /// current column, on a new line if this one is full. Output shows the live
    /// view.
    pub open spec fn write_byte(self, byte: u8) -> Screen {
        let live = self.live();
        if byte == 0x0A {
            live.new_line()
        } else {
            let line = if live.column >= 80 {
                live.new_line()
            } else {
                live
            };
            Screen { column: line.column + 1, ..line.with_cell(line.column, byte) }
        }
    }

    /// Bytes are written; what is neither printable ASCII nor a newline shows as
    /// a block.
    pub open spec fn write_bytes(self, bytes: Seq<u8>) -> Screen
        decreases bytes.len(),
    {
        if bytes.len() == 0 {
            self
        } else {
            self.write_bytes(bytes.drop_last()).write_byte(shown_byte(bytes.last()))
        }
    }

    /// The hardware cursor moves to where the next character goes.
    pub open spec fn with_cursor(self) -> Screen {
        Screen { cursor: 24 * 80 + self.column, ..self }
    }

    /// The character left of the current column is erased; nothing happens at
    /// the start of a line.
    pub open spec fn backspace(self) -> Screen {
        let live = self.live();
        if live.column > 0 {
            let back = Screen { column: live.column - 1, ..live };
            back.with_cell(back.column, 0x20).with_cursor()
        } else {
            live
        }
    }

    /// Every cell is blank, and the cursor is at the top left.
    pub open spec fn cleared(self) -> Screen {
        Screen {
            rows: Seq::new(25, |r: int| blank_row(self.color)),
            column: 0,
            scrolled: 0,
            cursor: 0,
            ..self
        }
    }

    /// The view is one screen further up, as far as there is history.
    pub open spec fn paged_up(self) -> Screen {
        Screen {
            scrolled: if self.scrolled + 25 < self.history.len() {
                self.scrolled + 25
            } else {
                self.history.len() as int
            },
            ..self
        }
    }

    /// The view is one screen further down, as far as the live view.
    pub open spec fn paged_down(self) -> Screen {
        Screen {
            scrolled: if self.scrolled > 25 {
                self.scrolled - 25
            } else {
                0
            },
            ..self
        }
    }

    /// The rows that the view shows: those of the live screen, or older ones.
    pub open spec fn shown(self) -> Seq<Row> {
        let all = self.history + self.rows;
        all.subrange(
            self.history.len() - self.scrolled,
            self.history.len() - self.scrolled + 25,
        )
    }
}

/// What a byte of a string is written as.
pub open spec fn shown_byte(byte: u8) -> u8 {
    if 0x20 <= byte <= 0x7E || byte == 0x0A {
        byte
    } else {
        0xFE
    }
}

/// The screen, and what has scrolled off it.
#[derive(Debug, Clone, Copy, PartialEq, Eq)]
pub struct Writer {
    pub column_position: usize,
    pub color_code: ColorCode,
    /// The cells of the live screen, row by row.
    pub cells: [ScreenChar; BUFFER_CELLS],
    /// The rows that have scrolled off the top, in a ring.
    pub lines: [ScreenChar; SCROLLBACK_CELLS],
    /// The row of the ring that holds the oldest one.
    pub oldest: usize,
    /// How many rows the ring holds.
    pub kept: usize,
    pub scrolled: usize,
    pub cursor: u16,
}

/// Row `r` of cells that lie row by row.
pub open spec fn row_of(cells: Seq<ScreenChar>, r: int) -> Row {
    Seq::new(80, |c: int| cells[80 * r + c])
}

impl View for Writer {
    type V = Screen;

    open spec fn view(&self) -> Screen {
        Screen {
            history: Seq::new(
                self.kept as nat,
                |i: int| row_of(self.lines@, (self.oldest + i) % 200),
            ),
            rows: Seq::new(25, |r: int| row_of(self.cells@, r)),
            column: self.column_position as int,
            color: self.color_code,
            scrolled: self.scrolled as int,
            cursor: self.cursor as int,
        }
    }
}

impl Writer {
    /// The positions are within the screen and the ring.
    pub open spec fn wf(&self) -> bool {
        &&& self.column_position <= BUFFER_WIDTH
        &&& self.oldest < SCROLLBACK_ROWS
        &&& self.kept <= SCROLLBACK_ROWS
        &&& self.scrolled <= self.kept
        &&& self.cursor <= BUFFER_CELLS
    }

    /// A blank screen.
    pub fn new(color_code: ColorCode) -> (writer: Writer)
        ensures
            writer.wf(),
            writer@ == (Screen {
                history: Seq::empty(),
                rows: Seq::new(25, |r: int| blank_row(color_code)),
                column: 0,
                color: color_code,
                scrolled: 0,
                cursor: 0,
            }),
    {
        let blank = ScreenChar { ascii_character: 0x20, color_code };
        let writer = Writer {
            column_position: 0,
            color_code,
            cells: [blank; BUFFER_CELLS],
            lines: [blank; SCROLLBACK_CELLS],
            oldest: 0,
            kept: 0,
            scrolled: 0,
            cursor: 0,
        };
        proof {
            assert(writer@.history =~= Seq::<Row>::empty());
            assert forall|r: int| 0 <= r < 25 implies row_of(writer.cells@, r) == blank_row(
                color_code,
            ) by {
                assert(row_of(writer.cells@, r) =~= blank_row(color_code));
            }
            assert(writer@.rows =~= Seq::new(25, |r: int| blank_row(color_code)));
        }
        writer
    }

    /// Copies the top row into the history.
    fn archive(&mut self)
        requires
            old(self).wf(),
            old(self).scrolled == 0,
        ensures
            final(self).wf(),
            final(self).cells == old(self).cells,
            final(self)@ == (Screen {
                history: archived(old(self)@.history, old(self)@.rows[0]),
                ..old(self)@
            }),
    {
        let full = self.kept == SCROLLBACK_ROWS;
        let slot: usize = if full {
            self.oldest
        } else {
            (self.oldest + self.kept) % SCROLLBACK_ROWS
        };
        let ghost lines_before = self.lines@;
        let mut c: usize = 0;
        while c < BUFFER_WIDTH
            invariant
                c <= BUFFER_WIDTH,
                slot < SCROLLBACK_ROWS,
                self.cells == old(self).cells,
                self.column_position == old(self).column_position,
                self.color_code == old(self).color_code,
                self.oldest == old(self).oldest,
                self.kept == old(self).kept,
                self.scrolled == old(self).scrolled,
                self.cursor == old(self).cursor,
                forall|k: int| 0 <= k < c ==> #[trigger] self.lines@[80 * slot + k] == self.cells@[k],
                forall|k: int|
                    0 <= k < SCROLLBACK_CELLS && !(80 * slot <= k < 80 * slot + 80)
                        ==> #[trigger] self.lines@[k] == lines_before[k],
            decreases BUFFER_WIDTH - c,
        {
            let cell = self.cells[c];
            self.lines[BUFFER_WIDTH * slot + c] = cell;
            c = c + 1;
        }
        if full {
            self.oldest = (self.oldest + 1) % SCROLLBACK_ROWS;
        } else {
            self.kept = self.kept + 1;
        }
        proof {
            let top = old(self)@.rows[0];
            assert(row_of(self.lines@, slot as int) =~= top) by {
                assert forall|k: int| 0 <= k < 80 implies row_of(self.lines@, slot as int)[k]
                    == top[k] by {
                    assert(self.lines@[80 * slot + k] == self.cells@[k]);
                }
            }
            assert forall|r: int| 0 <= r < 200 && r != slot implies row_of(self.lines@, r)
                == row_of(lines_before, r) by {
                assert(row_of(self.lines@, r) =~= row_of(lines_before, r));
            }
            let was = old(self)@.history;
            let now = self@.history;
            assert forall|i: int| 0 <= i < now.len() implies now[i] == archived(was, top)[i] by {
                let r = (self.oldest + i) % 200;
                if i == now.len() - 1 {
                    assert(r == slot);
                } else if full {
                    assert(r == (old(self).oldest + (i + 1)) % 200);
                    assert(r != slot);
                } else {
                    assert(r == (old(self).oldest + i) % 200);
                    assert(r != slot);
                }
            }
            assert(now =~= archived(was, top));
            assert(self@.rows =~= old(self)@.rows);
        }
    }
}

impl Writer {
    /// Moves every row up, the top one into the history, and starts a blank row
    /// at the bottom.
    fn new_line(&mut self)
        requires
            old(self).wf(),
            old(self).scrolled == 0,
        ensures
            final(self).wf(),
            final(self).scrolled == 0,
            final(self)@ == old(self)@.new_line(),
    {
        self.archive();
        let ghost cells_before = self.cells@;
        let ghost moved = *self;
        let mut k: usize = 0;
        while k < BUFFER_CELLS - BUFFER_WIDTH
            invariant
                k <= 1920,
                self.column_position == moved.column_position,
                self.color_code == moved.color_code,
                self.lines == moved.lines,
                self.oldest == moved.oldest,
                self.kept == moved.kept,
                self.scrolled == moved.scrolled,
                self.cursor == moved.cursor,
                forall|j: int| 0 <= j < k ==> #[trigger] self.cells@[j] == cells_before[j + 80],
                forall|j: int| k <= j < 2000 ==> #[trigger] self.cells@[j] == cells_before[j],
            decreases 1920 - k,
        {
            let character = self.cells[k + BUFFER_WIDTH];
            self.cells[k] = character;
            k = k + 1;
        }
        let ghost shifted = self.cells@;
        self.clear_row(BUFFER_HEIGHT - 1);
        self.column_position = 0;
        proof {
            let rows = old(self)@.rows;
            let expected = rows.drop_first().push(blank_row(self.color_code));
            assert forall|r: int| 0 <= r < 25 implies self@.rows[r] == expected[r] by {
                if r < 24 {
                    assert(row_of(self.cells@, r) =~= row_of(cells_before, r + 1)) by {
                        assert forall|c: int| 0 <= c < 80 implies row_of(self.cells@, r)[c]
                            == row_of(cells_before, r + 1)[c] by {
                            assert(self@.rows[r] == row_of(shifted, r));
                            assert(row_of(shifted, r)[c] == shifted[80 * r + c]);
                            assert(shifted[80 * r + c] == cells_before[80 * r + c + 80]);
                        }
                    }
                }
            }
            assert(self@.rows =~= expected);
            assert(self@ =~= old(self)@.new_line());
        }
    }

    /// Blanks a row of the screen.
    fn clear_row(&mut self, row: usize)
        requires
            old(self).wf(),
            row < BUFFER_HEIGHT,
        ensures
            final(self).wf(),
            final(self).scrolled == old(self).scrolled,
            final(self).lines == old(self).lines,
            final(self)@ == (Screen {
                rows: old(self)@.rows.update(row as int, blank_row(old(self).color_code)),
                ..old(self)@
            }),
    {
        let blank = ScreenChar { ascii_character: 0x20, color_code: self.color_code };
        let mut c: usize = 0;
        while c < BUFFER_WIDTH
            invariant
                c <= BUFFER_WIDTH,
                row < BUFFER_HEIGHT,
                blank == (ScreenChar {
                    ascii_character: 0x20,
                    color_code: old(self).color_code,
                }),
                self.column_position == old(self).column_position,
                self.color_code == old(self).color_code,
                self.lines == old(self).lines,
                self.oldest == old(self).oldest,
                self.kept == old(self).kept,
                self.scrolled == old(self).scrolled,
                self.cursor == old(self).cursor,
                forall|j: int| 0 <= j < c ==> #[trigger] self.cells@[80 * row + j] == blank,
                forall|j: int|
                    0 <= j < 2000 && !(80 * row <= j < 80 * row + 80) ==> #[trigger] self.cells@[j]
                        == old(self).cells@[j],
            decreases BUFFER_WIDTH - c,
        {
            self.cells[BUFFER_WIDTH * row + c] = blank;
            c = c + 1;
        }
        proof {
            let expected = old(self)@.rows.update(row as int, blank_row(self.color_code));
            assert forall|r: int| 0 <= r < 25 implies self@.rows[r] == expected[r] by {
                if r == row {
                    assert forall|j: int| 0 <= j < 80 implies row_of(self.cells@, r)[j]
                        == blank_row(self.color_code)[j] by {
                        assert(self.cells@[80 * row + j] == blank);
                    }
                    assert(row_of(self.cells@, r) =~= blank_row(self.color_code));
                } else {
                    assert(row_of(self.cells@, r) =~= row_of(old(self).cells@, r));
                }
            }
            assert(self@.rows =~= expected);
            assert(self@ =~= (Screen { rows: expected, ..old(self)@ }));
        }
    }

    /// Sets a cell of the bottom row.
    fn set_cell(&mut self, column: usize, byte: u8)
        requires
            old(self).wf(),
            column < BUFFER_WIDTH,
        ensures
            final(self).wf(),
            final(self).scrolled == old(self).scrolled,
            final(self).column_position == old(self).column_position,
            final(self)@ == old(self)@.with_cell(column as int, byte),
    {
        let cell = ScreenChar { ascii_character: byte, color_code: self.color_code };
        self.cells[BUFFER_WIDTH * (BUFFER_HEIGHT - 1) + column] = cell;
        proof {
            let expected = old(self)@.with_cell(column as int, byte);
            assert forall|r: int| 0 <= r < 25 implies self@.rows[r] == expected.rows[r] by {
                assert(self@.rows[r] =~= expected.rows[r]);
            }
            assert(self@.rows =~= expected.rows);
            assert(self@ =~= expected);
        }
    }

    /// Writes a byte at the current position. A newline starts a new line; a
    /// full line is continued on a new one.
    pub fn write_byte(&mut self, byte: u8)
        requires
            old(self).wf(),
        ensures
            final(self).wf(),
            final(self)@ == old(self)@.write_byte(byte),
    {
        self.scroll_to_live();
        if byte == 0x0A {
            self.new_line();
        } else {
            // check if current line is full
            if self.column_position >= BUFFER_WIDTH {
                self.new_line();
            }
            let col: usize = self.column_position;
            self.set_cell(col, byte);
            self.column_position = col + 1;
        }
        assert(self@ =~= old(self)@.write_byte(byte));
    }

    /// Writes a string. The hardware cursor stays where it is.
    pub fn write_string(&mut self, s: &str)
        requires
            old(self).wf(),
        ensures
            final(self).wf(),
            final(self)@ == old(self)@.write_bytes(s.spec_bytes()),
    {
        let bytes: &[u8] = s.as_bytes();
        let mut i: usize = 0;
        assert(bytes@.take(0) =~= Seq::<u8>::empty());
        while i < bytes.len()
            invariant
                i <= bytes@.len(),
                self.wf(),
                self@ == old(self)@.write_bytes(bytes@.take(i as int)),
            decreases bytes@.len() - i,
        {
            let byte: u8 = bytes[i];
            assert(bytes@.take(i + 1).drop_last() =~= bytes@.take(i as int));
            // printable ASCII byte or newline; anything else is not in the
            // printable ASCII range
            if (0x20 <= byte && byte <= 0x7E) || byte == 0x0A {
                self.write_byte(byte);
            } else {
                self.write_byte(0xFE);
            }
            i = i + 1;
        }
        assert(bytes@.take(i as int) =~= bytes@);
    }

    /// Writes a string and moves the hardware cursor behind it.
    pub fn write_str(&mut self, s: &str)
        requires
            old(self).wf(),
        ensures
            final(self).wf(),
            final(self)@ == old(self)@.write_bytes(s.spec_bytes()).with_cursor(),
    {
        self.write_string(s);
        self.update_cursor();
    }

    /// Erases the character to the left of the cursor on the current line.
    ///
    /// Does nothing at the start of a line (we don't wrap back to the previous
    /// row, which keeps line editing simple and predictable).
    pub fn backspace(&mut self)
        requires
            old(self).wf(),
        ensures
            final(self).wf(),
            final(self)@ == old(self)@.backspace(),
    {
        self.scroll_to_live();
        if self.column_position > 0 {
            self.column_position = self.column_position - 1;
            let col: usize = self.column_position;
            let ghost moved = self@;
            assert(moved =~= (Screen { column: old(self)@.column - 1, ..old(self)@.live() }));
            self.set_cell(col, 0x20);
            self.update_cursor();
        }
        assert(self@ =~= old(self)@.backspace());
    }

    /// Clears the whole screen and returns the cursor to the top-left.
    pub fn clear_screen(&mut self)
        requires
            old(self).wf(),
        ensures
            final(self).wf(),
            final(self)@ == old(self)@.cleared(),
    {
        self.scroll_to_live();
        let ghost start = self@;
        let mut row: usize = 0;
        while row < BUFFER_HEIGHT
            invariant
                row <= BUFFER_HEIGHT,
                self.wf(),
                self.scrolled == 0,
                self@.history == start.history,
                self@.color == start.color,
                self@.rows.len() == 25,
                forall|r: int| 0 <= r < row ==> #[trigger] self@.rows[r] == blank_row(start.color),
            decreases BUFFER_HEIGHT - row,
        {
            self.clear_row(row);
            row = row + 1;
        }
        self.column_position = 0;
        self.cursor = 0;
        assert(self@.rows =~= old(self)@.cleared().rows);
        assert(self@ =~= old(self)@.cleared());
    }

    /// Moves the hardware cursor to the current write position.
    ///
    /// Output always lands on the bottom row, so the linear cursor position is
    /// `(BUFFER_HEIGHT - 1) * BUFFER_WIDTH + column_position`.
    pub fn update_cursor(&mut self)
        requires
            old(self).wf(),
        ensures
            final(self).wf(),
            final(self).scrolled == old(self).scrolled,
            final(self)@ == old(self)@.with_cursor(),
    {
        self.cursor = ((BUFFER_HEIGHT - 1) * BUFFER_WIDTH + self.column_position) as u16;
        assert(self@ =~= old(self)@.with_cursor());
    }

    /// The port accesses that move the hardware cursor to where it should be:
    /// its position is written as two bytes to the CRTC registers 0x0F (low) and
    /// 0x0E (high) via the index/data ports.
    pub fn cursor_ops(&self) -> (ops: [PortOp; 4])
        ensures
            ops@ == seq![
                PortOp::Write8 { port: 0x3D4, value: 0x0F },
                PortOp::Write8 { port: 0x3D5, value: (self.cursor % 256) as u8 },
                PortOp::Write8 { port: 0x3D4, value: 0x0E },
                PortOp::Write8 { port: 0x3D5, value: (self.cursor / 256) as u8 },
            ],
            ops@[1]->Write8_value + 256 * ops@[3]->Write8_value == self.cursor,
    {
        let ops = [
            PortOp::Write8 { port: CRTC_INDEX, value: 0x0F },
            PortOp::Write8 { port: CRTC_DATA, value: (self.cursor % 256) as u8 },
            PortOp::Write8 { port: CRTC_INDEX, value: 0x0E },
            PortOp::Write8 { port: CRTC_DATA, value: (self.cursor / 256) as u8 },
        ];
        assert(ops@ =~= seq![
            PortOp::Write8 { port: 0x3D4, value: 0x0F },
            PortOp::Write8 { port: 0x3D5, value: (self.cursor % 256) as u8 },
            PortOp::Write8 { port: 0x3D4, value: 0x0E },
            PortOp::Write8 { port: 0x3D5, value: (self.cursor / 256) as u8 },
        ]);
        ops
    }

    /// Scrolls the view one screen up, as far as there is history.
    pub fn scroll_page_up(&mut self)
        requires
            old(self).wf(),
        ensures
            final(self).wf(),
            final(self)@ == old(self)@.paged_up(),
    {
        let further: usize = self.scrolled + BUFFER_HEIGHT;
        self.scrolled = if further < self.kept {
            further
        } else {
            self.kept
        };
        assert(self@.history =~= old(self)@.history);
        assert(self@.rows =~= old(self)@.rows);
    }

    /// Scrolls the view one screen down, as far as the live view.
    pub fn scroll_page_down(&mut self)
        requires
            old(self).wf(),
        ensures
            final(self).wf(),
            final(self)@ == old(self)@.paged_down(),
    {
        self.scrolled = if self.scrolled > BUFFER_HEIGHT {
            self.scrolled - BUFFER_HEIGHT
        } else {
            0
        };
        assert(self@.history =~= old(self)@.history);
        assert(self@.rows =~= old(self)@.rows);
    }

    /// Goes back to the live view.
    pub fn scroll_to_live(&mut self)
        requires
            old(self).wf(),
        ensures
            final(self).wf(),
            final(self).scrolled == 0,
            final(self)@ == old(self)@.live(),
    {
        self.scrolled = 0;
        assert(self@.history =~= old(self)@.history);
        assert(self@.rows =~= old(self)@.rows);
    }

    /// The cell that the view shows at a place.
    pub fn cell(&self, row: usize, column: usize) -> (cell: ScreenChar)
        requires
            self.wf(),
            row < BUFFER_HEIGHT,
            column < BUFFER_WIDTH,
        ensures
            cell == self@.shown()[row as int][column as int],
    {
        if row < self.scrolled {
            let line: usize = self.kept - self.scrolled + row;
            let slot: usize = (self.oldest + line) % SCROLLBACK_ROWS;
            assert(self@.shown()[row as int] == self@.history[line as int]);
            self.lines[BUFFER_WIDTH * slot + column]
        } else {
            assert(self@.shown()[row as int] == self@.rows[row - self.scrolled]);
            self.cells[BUFFER_WIDTH * (row - self.scrolled) + column]
        }
    }
}

impl Screen {
    /// The screen has its size, and so does every row; the view is scrolled no
    /// further than there is history, of which there is no more than is kept.
    pub open spec fn wf(self) -> bool {
        &&& self.rows.len() == 25
        &&& forall|r: int| 0 <= r < 25 ==> (#[trigger] self.rows[r]).len() == 80
        &&& 0 <= self.column <= 80
        &&& self.history.len() <= SCROLLBACK_ROWS
        &&& 0 <= self.scrolled <= self.history.len()
    }
}

/// What a [`Writer`] stands for is a sound screen.
pub proof fn law_writers_are_sound(writer: Writer)
    requires
        writer.wf(),
    ensures
        writer@.wf(),
{
}

/// The live view shows the live screen; scrolled up by some rows, it shows as
/// many rows of history above what is left of the screen.
pub proof fn law_views_show_the_output(screen: Screen)
    requires
        screen.wf(),
    ensures
        screen.live().shown() == screen.rows,
        screen.scrolled <= 25 ==> screen.shown() == screen.history.skip(
            screen.history.len() - screen.scrolled,
        ) + screen.rows.take(25 - screen.scrolled),
{
    assert(screen.live().shown() =~= screen.rows);
    if screen.scrolled <= 25 {
        assert(screen.shown() =~= screen.history.skip(screen.history.len() - screen.scrolled)
            + screen.rows.take(25 - screen.scrolled));
    }
}

/// Paging changes the view and nothing else. A page up and a page down lead
/// back to the same view, unless the history ended within the page; and output
/// and erasing lead back to the live view.
pub proof fn law_paging_is_only_a_view(screen: Screen, byte: u8)
    requires
        screen.wf(),
    ensures
        screen.paged_up().wf() && screen.paged_down().wf(),
        screen.paged_up().live() == screen.live(),
        screen.paged_down().live() == screen.live(),
        screen.scrolled + 25 <= screen.history.len() ==> screen.paged_up().paged_down() == screen,
        screen.write_byte(byte).scrolled == 0,
        screen.paged_up().write_byte(byte) == screen.write_byte(byte),
        screen.backspace().scrolled == 0,
        screen.paged_up().backspace() == screen.backspace(),
{
}

/// A row that scrolls off the top becomes the newest row of the history, and
/// nothing is lost of the rows that are still kept. Once the history is full,
/// its oldest row makes room.
pub proof fn law_rows_scroll_into_the_history(screen: Screen)
    requires
        screen.wf(),
    ensures
        screen.new_line().wf(),
        screen.new_line().history.last() == screen.rows[0],
        screen.history.len() < SCROLLBACK_ROWS ==> screen.new_line().history + screen.new_line().rows
            == screen.history + screen.rows.push(blank_row(screen.color)),
        screen.history.len() == SCROLLBACK_ROWS ==> screen.new_line().history
            == screen.history.drop_first().push(screen.rows[0]),
{
    let next = screen.new_line();
    assert forall|r: int| 0 <= r < 25 implies (#[trigger] next.rows[r]).len() == 80 by {
        if r < 24 {
            assert(next.rows[r] == screen.rows[r + 1]);
        }
    }
    if screen.history.len() < SCROLLBACK_ROWS {
        assert(next.history + next.rows =~= screen.history + screen.rows.push(
            blank_row(screen.color),
        ));
    }
}

/// Printable text that fits on the line shows in the bottom row, in the current
/// color, from the current column on, and nothing else changes.
pub proof fn law_text_shows_on_the_line(screen: Screen, bytes: Seq<u8>)
    requires
        screen.wf(),
        screen.scrolled == 0,
        screen.column + bytes.len() <= 80,
        forall|i: int| 0 <= i < bytes.len() ==> 0x20 <= #[trigger] bytes[i] <= 0x7E,
    ensures
        ({
            let after = screen.write_bytes(bytes);
            &&& after.wf()
            &&& after.column == screen.column + bytes.len()
            &&& after.history == screen.history
            &&& after.scrolled == 0
            &&& after.color == screen.color
            &&& forall|r: int| 0 <= r < 24 ==> #[trigger] after.rows[r] == screen.rows[r]
            &&& forall|c: int|
                0 <= c < 80 ==> #[trigger] after.rows[24][c] == (if screen.column <= c
                    < screen.column + bytes.len() {
                    ScreenChar {
                        ascii_character: bytes[c - screen.column],
                        color_code: screen.color,
                    }
                } else {
                    screen.rows[24][c]
                })
        }),
    decreases bytes.len(),
{
    if bytes.len() > 0 {
        let front = bytes.drop_last();
        assert forall|i: int| 0 <= i < front.len() implies 0x20 <= #[trigger] front[i] <= 0x7E by {
            assert(front[i] == bytes[i]);
        }
        law_text_shows_on_the_line(screen, front);
        let before = screen.write_bytes(front);
        assert(0x20 <= bytes[bytes.len() - 1] <= 0x7E);
        let after = screen.write_bytes(bytes);
        assert(after.rows.len() == 25);
        assert forall|r: int| 0 <= r < 25 implies (#[trigger] after.rows[r]).len() == 80 by {
            assert(before.rows[r].len() == 80);
        }
    }
}

/// Backspace takes back a character that was typed over a blank: the screen is
/// as it was before, with the cursor behind what is left.
pub proof fn law_backspace_erases(screen: Screen, byte: u8)
    requires
        screen.wf(),
        screen.scrolled == 0,
        screen.column < 80,
        byte != 0x0A,
        screen.rows[24][screen.column] == (ScreenChar {
            ascii_character: 0x20,
            color_code: screen.color,
        }),
    ensures
        screen.write_byte(byte).backspace() == screen.with_cursor(),
{
    let there = screen.write_byte(byte);
    let back = there.backspace();
    assert(screen.rows[24].len() == 80);
    assert(back.rows[24] =~= screen.rows[24]);
    assert(back.rows =~= screen.rows);
    assert(back =~= screen.with_cursor());
}

/// The accesses that make the hardware cursor an underline near the bottom of
/// the character cell, given what the accesses answer: the start register keeps
/// its top 2 bits, loses the disable bit, and starts at scanline 14; the end
/// register keeps its top 3 bits and ends at scanline 15.
pub open spec fn cursor_setup(inputs: crate::ata::Inputs) -> Seq<PortOp> {
    seq![
        PortOp::Write8 { port: 0x3D4, value: 0x0A },
        PortOp::Read8 { port: 0x3D5 },
        PortOp::Write8 { port: 0x3D5, value: (inputs(1) as u8 & 0xC0) | 14 },
        PortOp::Write8 { port: 0x3D4, value: 0x0B },
        PortOp::Read8 { port: 0x3D5 },
        PortOp::Write8 { port: 0x3D5, value: (inputs(4) as u8 & 0xE0) | 15 },
    ]
}

/// The setting up of the hardware cursor, under way.
#[derive(Debug, Clone, Copy, PartialEq, Eq, Structural)]
pub struct CursorSetup {
    /// Accesses made.
    pub done: usize,
    /// What the last register read gave.
    pub held: u8,
}

/// Begins to enable the blinking VGA hardware cursor as an underline near the
/// bottom of the character cell.
pub fn enable_cursor() -> (setup: CursorSetup)
    ensures
        setup.done == 0,
{
    CursorSetup { done: 0, held: 0 }
}

impl CursorSetup {
    /// What was read is what the accesses answered.
    pub open spec fn agrees(&self, inputs: crate::ata::Inputs) -> bool {
        &&& self.done <= 6
        &&& 2 <= self.done <= 4 ==> self.held == inputs(1) as u8
        &&& 5 <= self.done ==> self.held == inputs(4) as u8
    }

    /// The access to make next; nothing once all are made.
    pub fn op(&self) -> (op: Option<PortOp>)
        ensures
            forall|inputs: crate::ata::Inputs| #[trigger]
                self.agrees(inputs) ==> op == (if self.done < 6 {
                    Some(cursor_setup(inputs)[self.done as int])
                } else {
                    None
                }),
    {
        if self.done == 0 {
            Some(PortOp::Write8 { port: CRTC_INDEX, value: 0x0A })
        } else if self.done == 1 || self.done == 4 {
            Some(PortOp::Read8 { port: CRTC_DATA })
        } else if self.done == 2 {
            Some(PortOp::Write8 { port: CRTC_DATA, value: (self.held & 0xC0) | 14 })
        } else if self.done == 3 {
            Some(PortOp::Write8 { port: CRTC_INDEX, value: 0x0B })
        } else if self.done == 5 {
            Some(PortOp::Write8 { port: CRTC_DATA, value: (self.held & 0xE0) | 15 })
        } else {
            None
        }
    }

    /// Goes on once the access is made; `value` is what a read gave.
    pub fn step(&mut self, value: u16)
        requires
            old(self).done < 6,
        ensures
            final(self).done == old(self).done + 1,
            forall|inputs: crate::ata::Inputs| #[trigger]
                old(self).agrees(inputs) && inputs(old(self).done as nat) == value
                    ==> final(self).agrees(inputs),
    {
        if self.done == 1 || self.done == 4 {
            self.held = #[verifier::truncate] (value as u8);
        }
        self.done = self.done + 1;
    }
}

/// The palette mixes its colors: blue is 1, green is 2 and red is 4; the others are
/// sums of these; and a light color is 8 more than the dark one.
pub proof fn law_colors_are_mixed()
    ensures
        Color::Black.number() == 0,
        Color::Blue.number() == 1,
        Color::Green.number() == 2,
        Color::Red.number() == 4,
        Color::Cyan.number() == Color::Blue.number() + Color::Green.number(),
        Color::Magenta.number() == Color::Blue.number() + Color::Red.number(),
        Color::Brown.number() == Color::Green.number() + Color::Red.number(),
        Color::LightGray.number() == Color::Blue.number() + Color::Green.number()
            + Color::Red.number(),
        Color::DarkGray.number() == Color::Black.number() + 8,
        Color::LightBlue.number() == Color::Blue.number() + 8,
        Color::LightGreen.number() == Color::Green.number() + 8,
        Color::LightCyan.number() == Color::Cyan.number() + 8,
        Color::LightRed.number() == Color::Red.number() + 8,
        Color::Pink.number() == Color::Magenta.number() + 8,
        Color::Yellow.number() == Color::Brown.number() + 8,
        Color::White.number() == Color::LightGray.number() + 8,
{
}

/// Text is written piece by piece: it does not matter how it is cut up.
pub proof fn law_text_is_written_piece_by_piece(screen: Screen, a: Seq<u8>, b: Seq<u8>)
    ensures
        screen.write_bytes(a + b) == screen.write_bytes(a).write_bytes(b),
    decreases b.len(),
{
    if b.len() == 0 {
        assert(a + b =~= a);
    } else {
        law_text_is_written_piece_by_piece(screen, a, b.drop_last());
        assert((a + b).drop_last() =~= a + b.drop_last());
    }
}

/// One byte of a text: a newline and printable ASCII are written as they are, and
/// anything else as a block.
pub proof fn law_unprintable_bytes_show_as_blocks(screen: Screen, byte: u8)
    ensures
        byte == 10 || 32 <= byte < 127 ==> screen.write_bytes(seq![byte]) == screen.write_byte(
            byte,
        ),
        byte != 10 && !(32 <= byte < 127) ==> screen.write_bytes(seq![byte]) == screen.write_byte(
            0xFE,
        ),
{
    let one = seq![byte];
    assert(one.drop_last() =~= Seq::<u8>::empty());
    reveal_with_fuel(Screen::write_bytes, 2);
}

/// A newline moves every row up by one and leaves a blank one at the bottom, in the
/// current color, where the next character goes to the first column.
pub proof fn law_newlines_move_the_rows_up(screen: Screen, r: int, c: int)
    requires
        screen.wf(),
        0 <= r < 24,
        0 <= c < 80,
    ensures
        ({
            let after = screen.write_byte(10);
            &&& after.rows.len() == 25
            &&& after.rows[r] == screen.rows[r + 1]
            &&& after.rows[24].len() == 80
            &&& after.rows[24][c].ascii_character == 32
            &&& after.rows[24][c].color_code == screen.color
            &&& after.column == 0
            &&& after.scrolled == 0
            &&& after.color == screen.color
            &&& after.cursor == screen.cursor
        }),
{
}

/// A character that no longer fits on the line goes to a new one; any other takes
/// the next place of the line, in the current color, and the one behind it is next.
pub proof fn law_full_lines_wrap(screen: Screen, byte: u8, c: int)
    requires
        screen.wf(),
        byte != 10,
        0 <= c < 80,
    ensures
        ({
            let after = screen.write_byte(byte);
            &&& screen.column == 80 ==> after == screen.write_byte(10).write_byte(byte)
            &&& screen.column < 80 ==> {
                &&& after.column == screen.column + 1
                &&& after.history == screen.history
                &&& forall|r: int| 0 <= r < 24 ==> #[trigger] after.rows[r] == screen.rows[r]
                &&& c != screen.column ==> after.rows[24][c] == screen.rows[24][c]
                &&& after.rows[24][screen.column].ascii_character == byte
                &&& after.rows[24][screen.column].color_code == screen.color
            }
        }),
{
    assert(screen.rows[24].len() == 80);
}

/// Clearing leaves a screen of spaces in the current color, the cursor at its start,
/// and the next character at the start of its bottom row. What had scrolled off
/// before is kept.
pub proof fn law_clearing_leaves_spaces(screen: Screen, r: int, c: int)
    requires
        0 <= r < 25,
        0 <= c < 80,
    ensures
        ({
            let after = screen.cleared();
            &&& after.rows.len() == 25
            &&& after.rows[r].len() == 80
            &&& after.rows[r][c].ascii_character == 32
            &&& after.rows[r][c].color_code == screen.color
            &&& after.column == 0
            &&& after.cursor == 0
            &&& after.scrolled == 0
            &&& after.history == screen.history
            &&& after.color == screen.color
        }),
{
}

/// The hardware cursor stands in the bottom row, at the column where the next
/// character goes.
pub proof fn law_the_cursor_is_where_text_goes(screen: Screen)
    requires
        0 <= screen.column < 80,
    ensures
        screen.with_cursor().cursor / 80 == 24,
        screen.with_cursor().cursor % 80 == screen.column,
        screen.with_cursor().rows == screen.rows,
        screen.with_cursor().column == screen.column,
{
}

/// Backspace takes the last character of the line away, leaving a space, and does
/// nothing at the start of a line.
pub proof fn law_backspace_stays_on_the_line(screen: Screen, c: int)
    requires
        screen.wf(),
        0 <= c < 80,
    ensures
        ({
            let after = screen.backspace();
            &&& after.scrolled == 0
            &&& after.history == screen.history
            &&& forall|r: int| 0 <= r < 24 ==> #[trigger] after.rows[r] == screen.rows[r]
            &&& screen.column == 0 ==> after.rows == screen.rows && after.column == 0
            &&& screen.column > 0 ==> after.column == screen.column - 1
                && after.rows[24][screen.column - 1].ascii_character == 32
            &&& screen.column > 0 && c != screen.column - 1 ==> after.rows[24][c]
                == screen.rows[24][c]
        }),
{
    assert(screen.rows[24].len() == 80);
}

/// A page is a screen: paging moves the view by 25 rows, or to the end of what there
/// is to see.
pub proof fn law_pages_are_screens(screen: Screen)
    requires
        screen.wf(),
    ensures
        screen.paged_up().scrolled == screen.scrolled + 25 || (screen.paged_up().scrolled
            == screen.history.len() && screen.history.len() < screen.scrolled + 25),
        screen.paged_down().scrolled == screen.scrolled - 25 || (screen.paged_down().scrolled == 0
            && screen.scrolled < 25),
        forall|r: int|
            0 <= r < 25 ==> #[trigger] screen.shown()[r] == (if r < screen.scrolled {
                screen.history[screen.history.len() - screen.scrolled + r]
            } else {
                screen.rows[r - screen.scrolled]
            }),
{
}

/// Setting up the cursor changes its shape alone: of the start register the top two
/// bits stay, the cursor is switched on, and starts at scanline 14; of the end
/// register the top three bits stay, and it ends at scanline 15.
pub proof fn law_the_cursor_is_an_underline(inputs: crate::ata::Inputs)
    ensures
        ({
            let ops = cursor_setup(inputs);
            &&& ops.len() == 6
            &&& ops[0] == (PortOp::Write8 { port: 0x3D4, value: 10 })
            &&& ops[1] == (PortOp::Read8 { port: 0x3D5 })
            &&& ops[2] is Write8 && ops[2]->Write8_port == 0x3D5
            &&& ops[2]->Write8_value % 64 == 14
            &&& ops[2]->Write8_value / 64 == inputs(1) % 256 / 64
            &&& ops[3] == (PortOp::Write8 { port: 0x3D4, value: 11 })
            &&& ops[4] == (PortOp::Read8 { port: 0x3D5 })
            &&& ops[5] is Write8 && ops[5]->Write8_port == 0x3D5
            &&& ops[5]->Write8_value % 32 == 15
            &&& ops[5]->Write8_value / 32 == inputs(4) % 256 / 32
        }),
{
    let a = inputs(1);
    let b = inputs(4);
    assert(((a as u8 & 0xC0) | 14) % 64 == 14 && ((a as u8 & 0xC0) | 14) / 64 == a % 256 / 64)
        by (bit_vector);
    assert(((b as u8 & 0xE0) | 15) % 32 == 15 && ((b as u8 & 0xE0) | 15) / 32 == b % 256 / 32)
        by (bit_vector);
}

} // verus!
