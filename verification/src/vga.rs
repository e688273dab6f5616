//! Text-cell output model.
//!
//! The screen is a fixed grid of character cells, each an ASCII byte with a
//! color attribute. The hardware holds this grid in a memory-mapped buffer;
//! this library keeps the grid as owned data with the full cursor, wrapping,
//! tab and scrolling logic, and the hardware mirror is written outside it.

use vstd::prelude::*;
use vstd::string::StringSliceAdditionalSpecFns;

verus! {

/// Number of character rows on the screen.
pub const BUFFER_HEIGHT: usize = 25;

/// Number of character columns on the screen.
pub const BUFFER_WIDTH: usize = 80;

/// Number of spaces one tab expands to.
pub const TAB_WIDTH: usize = 4;

/// The sixteen colors of the text-mode palette, in hardware order.
#[derive(Debug, Clone, Copy, PartialEq, Eq, Structural)]
pub enum Color {
    Black,
    Blue,
    Green,
    Cyan,
    Red,
    Magenta,
    Brown,
    LightGray,
    DarkGray,
    LightBlue,
    LightGreen,
    LightCyan,
    LightRed,
    Pink,
    Yellow,
    White,
}

impl Color {
    /// Hardware palette number of this color.
    pub open spec fn spec_value(self) -> u8 {
        match self {
            Color::Black => 0,
            Color::Blue => 1,
            Color::Green => 2,
            Color::Cyan => 3,
            Color::Red => 4,
            Color::Magenta => 5,
            Color::Brown => 6,
            Color::LightGray => 7,
            Color::DarkGray => 8,
            Color::LightBlue => 9,
            Color::LightGreen => 10,
            Color::LightCyan => 11,
            Color::LightRed => 12,
            Color::Pink => 13,
            Color::Yellow => 14,
            Color::White => 15,
        }
    }

    /// The palette number as stored in a color attribute.
    pub fn as_u8(self) -> (r: u8)
        ensures
            r == self.spec_value(),
    {
        match self {
            Color::Black => 0,
            Color::Blue => 1,
            Color::Green => 2,
            Color::Cyan => 3,
            Color::Red => 4,
            Color::Magenta => 5,
            Color::Brown => 6,
            Color::LightGray => 7,
            Color::DarkGray => 8,
            Color::LightBlue => 9,
            Color::LightGreen => 10,
            Color::LightCyan => 11,
            Color::LightRed => 12,
            Color::Pink => 13,
            Color::Yellow => 14,
            Color::White => 15,
        }
    }
}

/// Foreground and background color of a character cell.
///
/// Packed into one attribute byte: bits 0 to 3 hold the foreground, bits 4
/// to 7 the background.
#[derive(Debug, Clone, Copy, PartialEq, Eq, Structural)]
pub struct ColorCode {
    pub foreground_color: Color,
    pub background_color: Color,
}

impl ColorCode {
    /// The packed attribute byte, with either color overridden when given.
    pub open spec fn spec_value(self, foreground: Option<Color>, background: Option<Color>) -> u8 {
        let fg = if foreground is Some {
            foreground->0
        } else {
            self.foreground_color
        };
        let bg = if background is Some {
            background->0
        } else {
            self.background_color
        };
        (bg.spec_value() << 4) | fg.spec_value()
    }

    /// Packs the attribute byte, taking the given colors over this code's own.
    pub fn get_value(&self, foreground: Option<Color>, background: Option<Color>) -> (r: u8)
        ensures
            r == self.spec_value(foreground, background),
    {
        let fg = match foreground {
            Some(c) => c,
            None => self.foreground_color,
        };
        let bg = match background {
            Some(c) => c,
            None => self.background_color,
        };
        (bg.as_u8() << 4) | fg.as_u8()
    }
}

/// One character cell: an ASCII byte and its color attribute.
#[derive(Debug, Clone, Copy, PartialEq, Eq, Structural)]
pub struct ScreenChar {
    pub ascii_character: u8,
    pub color_code: u8,
}

/// Mathematical state of the screen: the cells in row-major order, the
/// cursor, and the current color code.
pub ghost struct ScreenState {
    pub chars: Seq<ScreenChar>,
    pub col: int,
    pub row: int,
    pub color: ColorCode,
}

/// The cell an erased position holds: a zero byte on the background color.
pub open spec fn blank_char(color: ColorCode) -> ScreenChar {
    ScreenChar {
        ascii_character: 0,
        color_code: color.spec_value(
            Some(color.background_color),
            Some(color.background_color),
        ),
    }
}

/// Consistency of a screen state: full grid, cursor on the grid. The column
/// may rest one past the last cell; it wraps on the next printed byte.
pub open spec fn st_wf(s: ScreenState) -> bool {
    &&& s.chars.len() == BUFFER_HEIGHT * BUFFER_WIDTH
    &&& 0 <= s.col <= BUFFER_WIDTH
    &&& 0 <= s.row < BUFFER_HEIGHT
}

/// Carriage return plus line feed: move to the start of the next row, or
/// scroll every row up by one and clear the last row when already at the
/// bottom.
pub open spec fn spec_new_line(s: ScreenState) -> ScreenState {
    if s.row + 1 < BUFFER_HEIGHT {
        ScreenState { chars: s.chars, col: 0, row: s.row + 1, color: s.color }
    } else {
        ScreenState {
            chars: Seq::new(
                (BUFFER_HEIGHT * BUFFER_WIDTH) as nat,
                |i: int|
                    if i < (BUFFER_HEIGHT - 1) * BUFFER_WIDTH {
                        s.chars[i + BUFFER_WIDTH]
                    } else {
                        blank_char(s.color)
                    },
            ),
            col: 0,
            row: BUFFER_HEIGHT - 1,
            color: s.color,
        }
    }
}

/// Prints one byte at the cursor in the current color, wrapping to a new
/// line first when the row is full, and advances the cursor.
pub open spec fn spec_put(s: ScreenState, byte: u8) -> ScreenState {
    let s1 = if s.col >= BUFFER_WIDTH {
        spec_new_line(s)
    } else {
        s
    };
    ScreenState {
        chars: s1.chars.update(
            s1.row * BUFFER_WIDTH + s1.col,
            ScreenChar { ascii_character: byte, color_code: s1.color.spec_value(None, None) },
        ),
        col: s1.col + 1,
        row: s1.row,
        color: s1.color,
    }
}

/// `n` spaces printed in sequence, as one tab expands to.
pub open spec fn spec_tab(s: ScreenState, n: nat) -> ScreenState
    decreases n,
{
    if n == 0 {
        s
    } else {
        spec_tab(spec_put(s, 32), (n - 1) as nat)
    }
}

/// Effect of writing one byte: newline and tab are control bytes, everything
/// else is printed as is.
pub open spec fn spec_write_byte(s: ScreenState, byte: u8) -> ScreenState {
    if byte == 10 {
        spec_new_line(s)
    } else if byte == 9 {
        spec_tab(s, TAB_WIDTH as nat)
    } else {
        spec_put(s, byte)
    }
}

/// What a byte of a string turns into on screen: printable ASCII, newline
/// and tab pass through; anything else prints the replacement glyph.
pub open spec fn translate_byte(byte: u8) -> u8 {
    if (0x20 <= byte <= 0x7e) || byte == 10 || byte == 9 {
        byte
    } else {
        0xfe
    }
}

/// Effect of writing a whole byte sequence, front to back.
pub open spec fn spec_write_bytes(s: ScreenState, bytes: Seq<u8>) -> ScreenState
    decreases bytes.len(),
{
    if bytes.len() == 0 {
        s
    } else {
        spec_write_bytes(spec_write_byte(s, translate_byte(bytes[0])), bytes.drop_first())
    }
}

/// Writing the bytes and then one more equals writing the whole sequence.
pub proof fn lemma_write_bytes_snoc(s: ScreenState, bytes: Seq<u8>, byte: u8)
    ensures
        spec_write_bytes(s, bytes.push(byte)) == spec_write_byte(
            spec_write_bytes(s, bytes),
            translate_byte(byte),
        ),
    decreases bytes.len(),
{
    reveal_with_fuel(spec_write_bytes, 3);
    if bytes.len() == 0 {
        assert(bytes.push(byte).drop_first() =~= Seq::<u8>::empty());
    } else {
        assert(bytes.push(byte).drop_first() =~= bytes.drop_first().push(byte));
        lemma_write_bytes_snoc(spec_write_byte(s, translate_byte(bytes[0])), bytes.drop_first(), byte);
    }
}

/// Writes into the modeled screen grid.
pub struct Writer {
    buffer: Vec<ScreenChar>,
    pub color_code: ColorCode,
    pub cursor_position: (usize, usize),
}

impl Writer {
    /// The grid is full-sized and the cursor is on it. Open so that callers
    /// can read the grid's shape off any function that ensures it.
    pub open spec fn wf(self) -> bool {
        st_wf(self@)
    }

    /// The mathematical screen this writer holds.
    pub closed spec fn view(self) -> ScreenState {
        ScreenState {
            chars: self.buffer@,
            col: self.cursor_position.0 as int,
            row: self.cursor_position.1 as int,
            color: self.color_code,
        }
    }

    /// A cleared screen in the given color, cursor at the top left.
    pub fn new(color_code: ColorCode) -> (r: Writer)
        ensures
            r.wf(),
            r@.col == 0,
            r@.row == 0,
            r@.color == color_code,
            forall|i: int|
                0 <= i < BUFFER_HEIGHT * BUFFER_WIDTH ==> r@.chars[i] == blank_char(color_code),
    {
        let blank = ScreenChar {
            ascii_character: 0,
            color_code: color_code.get_value(
                Some(color_code.background_color),
                Some(color_code.background_color),
            ),
        };
        let mut buffer: Vec<ScreenChar> = Vec::new();
        let total = BUFFER_HEIGHT * BUFFER_WIDTH;
        let mut i: usize = 0;
        while i < total
            invariant
                i <= total,
                total == BUFFER_HEIGHT * BUFFER_WIDTH,
                buffer@.len() == i,
                blank == blank_char(color_code),
                forall|j: int| 0 <= j < i ==> buffer@[j] == blank_char(color_code),
            decreases total - i,
        {
            buffer.push(blank);
            i = i + 1;
        }
        Writer { buffer, color_code, cursor_position: (0, 0) }
    }

    /// Erases one row to the background color.
    fn clear_row(&mut self, row: usize)
        requires
            old(self).wf(),
            row < BUFFER_HEIGHT,
        ensures
            final(self).wf(),
            final(self)@.col == old(self)@.col,
            final(self)@.row == old(self)@.row,
            final(self)@.color == old(self)@.color,
            final(self)@.chars =~= Seq::new(
                (BUFFER_HEIGHT * BUFFER_WIDTH) as nat,
                |i: int|
                    if row * BUFFER_WIDTH <= i < row * BUFFER_WIDTH + BUFFER_WIDTH {
                        blank_char(old(self)@.color)
                    } else {
                        old(self)@.chars[i]
                    },
            ),
    {
        let blank = ScreenChar {
            ascii_character: 0,
            color_code: self.color_code.get_value(
                Some(self.color_code.background_color),
                Some(self.color_code.background_color),
            ),
        };
        let base = row * BUFFER_WIDTH;
        let mut col: usize = 0;
        while col < BUFFER_WIDTH
            invariant
                col <= BUFFER_WIDTH,
                base == row * BUFFER_WIDTH,
                row < BUFFER_HEIGHT,
                self.buffer@.len() == BUFFER_HEIGHT * BUFFER_WIDTH,
                self.color_code == old(self).color_code,
                self.cursor_position == old(self).cursor_position,
                blank == blank_char(old(self)@.color),
                forall|j: int|
                    0 <= j < self.buffer@.len() ==> self.buffer@[j] == (if base <= j < base + col {
                        blank_char(old(self)@.color)
                    } else {
                        old(self)@.chars[j]
                    }),
            decreases BUFFER_WIDTH - col,
        {
            assert(base + col < BUFFER_HEIGHT * BUFFER_WIDTH) by (nonlinear_arith)
                requires
                    base == row * BUFFER_WIDTH,
                    row < BUFFER_HEIGHT,
                    col < BUFFER_WIDTH,
                    BUFFER_WIDTH == 80,
                    BUFFER_HEIGHT == 25,
            ;
            self.buffer[base + col] = blank;
            col = col + 1;
        }
    }

    /// Moves the cursor to the next line, scrolling when at the bottom.
    fn new_line(&mut self)
        requires
            old(self).wf(),
        ensures
            final(self).wf(),
            final(self)@ == spec_new_line(old(self)@),
    {
        self.cursor_position.0 = 0;
        if self.cursor_position.1 + 1 < BUFFER_HEIGHT {
            self.cursor_position.1 = self.cursor_position.1 + 1;
            assert(self@ =~= spec_new_line(old(self)@));
        } else {
            let limit = (BUFFER_HEIGHT - 1) * BUFFER_WIDTH;
            let mut i: usize = 0;
            while i < limit
                invariant
                    i <= limit,
                    limit == (BUFFER_HEIGHT - 1) * BUFFER_WIDTH,
                    self.buffer@.len() == BUFFER_HEIGHT * BUFFER_WIDTH,
                    self.color_code == old(self).color_code,
                    self.cursor_position.0 == 0,
                    self.cursor_position.1 == old(self).cursor_position.1,
                    old(self).cursor_position.1 < BUFFER_HEIGHT,
                    forall|j: int|
                        0 <= j < i ==> self.buffer@[j] == old(self)@.chars[j + BUFFER_WIDTH],
                    forall|j: int|
                        i <= j < self.buffer@.len() ==> self.buffer@[j] == old(self)@.chars[j],
                decreases limit - i,
            {
                let c = self.buffer[i + BUFFER_WIDTH];
                self.buffer[i] = c;
                i = i + 1;
            }
            self.clear_row(BUFFER_HEIGHT - 1);
            self.cursor_position.1 = BUFFER_HEIGHT - 1;
            assert(self@.chars =~= spec_new_line(old(self)@).chars);
            assert(self@ =~= spec_new_line(old(self)@));
        }
    }

    /// Prints one byte at the cursor, wrapping first when the row is full.
    fn put_byte(&mut self, byte: u8)
        requires
            old(self).wf(),
        ensures
            final(self).wf(),
            final(self)@ == spec_put(old(self)@, byte),
    {
        if self.cursor_position.0 >= BUFFER_WIDTH {
            self.new_line();
        }
        let row = self.cursor_position.1;
        let col = self.cursor_position.0;
        assert(row * BUFFER_WIDTH + col < BUFFER_HEIGHT * BUFFER_WIDTH) by (nonlinear_arith)
            requires
                row < BUFFER_HEIGHT,
                col < BUFFER_WIDTH,
                BUFFER_WIDTH == 80,
                BUFFER_HEIGHT == 25,
        ;
        let attr = self.color_code.get_value(None, None);
        self.buffer[row * BUFFER_WIDTH + col] = ScreenChar {
            ascii_character: byte,
            color_code: attr,
        };
        self.cursor_position.0 = col + 1;
        assert(self@ =~= spec_put(old(self)@, byte));
    }

    /// Writes one byte: newline moves to the next line, tab prints four
    /// spaces, anything else is printed as is.
    pub fn write_byte(&mut self, byte: u8)
        requires
            old(self).wf(),
        ensures
            final(self).wf(),
            final(self)@ == spec_write_byte(old(self)@, byte),
    {
        if byte == 10 {
            self.new_line();
        } else if byte == 9 {
            self.put_byte(32);
            self.put_byte(32);
            self.put_byte(32);
            self.put_byte(32);
            proof {
                reveal_with_fuel(spec_tab, 5);
            }
        } else {
            self.put_byte(byte);
        }
    }

    /// Writes a string byte by byte, printing the replacement glyph for any
    /// byte that is neither printable ASCII nor newline nor tab.
    pub fn write_string(&mut self, s: &str)
        requires
            old(self).wf(),
        ensures
            final(self).wf(),
            final(self)@ == spec_write_bytes(old(self)@, s.spec_bytes()),
    {
        let bytes = s.as_bytes();
        let n = bytes.len();
        let mut i: usize = 0;
        while i < n
            invariant
                i <= n,
                n == bytes@.len(),
                bytes@ == s.spec_bytes(),
                self.wf(),
                self@ == spec_write_bytes(old(self)@, bytes@.take(i as int)),
            decreases n - i,
        {
            let b = bytes[i];
            proof {
                assert(bytes@.take(i + 1) =~= bytes@.take(i as int).push(bytes@[i as int]));
                lemma_write_bytes_snoc(old(self)@, bytes@.take(i as int), bytes@[i as int]);
            }
            if (0x20 <= b && b <= 0x7e) || b == 10 || b == 9 {
                self.write_byte(b);
            } else {
                self.write_byte(0xfe);
            }
            i = i + 1;
        }
        proof {
            assert(bytes@.take(n as int) =~= bytes@);
        }
    }

    /// The cell at one screen position, for reading the grid back.
    pub fn char_at(&self, row: usize, col: usize) -> (r: ScreenChar)
        requires
            self.wf(),
            row < BUFFER_HEIGHT,
            col < BUFFER_WIDTH,
        ensures
            r == self@.chars[row * BUFFER_WIDTH + col],
    {
        assert(row * BUFFER_WIDTH + col < BUFFER_HEIGHT * BUFFER_WIDTH) by (nonlinear_arith)
            requires
                row < BUFFER_HEIGHT,
                col < BUFFER_WIDTH,
                BUFFER_WIDTH == 80,
                BUFFER_HEIGHT == 25,
        ;
        self.buffer[row * BUFFER_WIDTH + col]
    }
}

} // verus!
