use vstd::prelude::*;
use vstd::string::StringSliceAdditionalSpecFns;

verus! {

pub const VGA_BUFFER_ADDRESS: usize = 0xb8000;

pub const BUFFER_HEIGHT: usize = 25;

pub const BUFFER_WIDTH: usize = 80;

pub enum MessageType {
    Info,
    Warning,
    Error,
    Success,
}

#[derive(Debug, Clone, Copy, PartialEq, Eq, Structural)]
pub enum Color {
    Black,
    Blue,
    Green,
    Cyan,
    Red,
    Magenta,
    Brown,
    LightGray,
    DarkGray,
    LightBlue,
    LightGreen,
    LightCyan,
    LightRed,
    Pink,
    Yellow,
    White,
}

/// The number of a color in the text-mode palette.
pub open spec fn color_value(c: Color) -> u8 {
    match c {
        Color::Black => 0,
        Color::Blue => 1,
        Color::Green => 2,
        Color::Cyan => 3,
        Color::Red => 4,
        Color::Magenta => 5,
        Color::Brown => 6,
        Color::LightGray => 7,
        Color::DarkGray => 8,
        Color::LightBlue => 9,
        Color::LightGreen => 10,
        Color::LightCyan => 11,
        Color::LightRed => 12,
        Color::Pink => 13,
        Color::Yellow => 14,
        Color::White => 15,
    }
}

/// The text-mode palette: black 0, blue 1, green 2, cyan 3, red 4, magenta 5, brown 6,
/// light gray 7, and the bright colors eight above them: dark gray 8, light blue 9, light
/// green 10, light cyan 11, light red 12, pink 13, yellow 14, white 15. Every number fits in
/// four bits.
pub proof fn lemma_text_palette()
    ensures
        color_value(Color::Black) == 0,
        color_value(Color::Blue) == 1,
        color_value(Color::Green) == 2,
        color_value(Color::Cyan) == 3,
        color_value(Color::Red) == 4,
        color_value(Color::Magenta) == 5,
        color_value(Color::Brown) == 6,
        color_value(Color::LightGray) == 7,
        color_value(Color::DarkGray) == 8,
        color_value(Color::LightBlue) == 9,
        color_value(Color::LightGreen) == 10,
        color_value(Color::LightCyan) == 11,
        color_value(Color::LightRed) == 12,
        color_value(Color::Pink) == 13,
        color_value(Color::Yellow) == 14,
        color_value(Color::White) == 15,
        forall|c: Color| #[trigger] color_value(c) < 16,
{
}

/// The number of a color in the text-mode palette.
pub fn color_number(c: Color) -> (r: u8)
    ensures
        r == color_value(c),
        c == Color::Black ==> r == 0,
        c == Color::Blue ==> r == 1,
        c == Color::Green ==> r == 2,
        c == Color::Cyan ==> r == 3,
        c == Color::Red ==> r == 4,
        c == Color::Magenta ==> r == 5,
        c == Color::Brown ==> r == 6,
        c == Color::LightGray ==> r == 7,
        c == Color::DarkGray ==> r == 8,
        c == Color::LightBlue ==> r == 9,
        c == Color::LightGreen ==> r == 10,
        c == Color::LightCyan ==> r == 11,
        c == Color::LightRed ==> r == 12,
        c == Color::Pink ==> r == 13,
        c == Color::Yellow ==> r == 14,
        c == Color::White ==> r == 15,
{
    proof {
        lemma_text_palette();
    }
    match c {
        Color::Black => 0,
        Color::Blue => 1,
        Color::Green => 2,
        Color::Cyan => 3,
        Color::Red => 4,
        Color::Magenta => 5,
        Color::Brown => 6,
        Color::LightGray => 7,
        Color::DarkGray => 8,
        Color::LightBlue => 9,
        Color::LightGreen => 10,
        Color::LightCyan => 11,
        Color::LightRed => 12,
        Color::Pink => 13,
        Color::Yellow => 14,
        Color::White => 15,
    }
}

/// A foreground and a background color: the background in the high four bits.
#[derive(Debug, Clone, Copy, PartialEq, Eq, Structural)]
pub struct ColorCode(pub u8);

/// Two numbers below 16 packed into one byte, the first in the high four bits.
proof fn lemma_nibbles(high: u8, low: u8)
    by (bit_vector)
    requires
        high < 16,
        low < 16,
    ensures
        (high << 4u8 | low) == 16 * high + low,
{
}

/// The color code of `foreground` on `background`.
pub open spec fn color_code_of(foreground: Color, background: Color) -> ColorCode {
    ColorCode(((color_value(background) as u8) << 4u8 | color_value(foreground) as u8) as u8)
}

impl ColorCode {
    pub fn new(foreground: Color, background: Color) -> (r: ColorCode)
        ensures
            r == color_code_of(foreground, background),
            r.0 == 16 * color_value(background) + color_value(foreground),
            r.0 % 16 == color_value(foreground),
            r.0 / 16 == color_value(background),
    {
        proof {
            lemma_text_palette();
            lemma_nibbles(color_value(background), color_value(foreground));
        }
        ColorCode((color_number(background) << 4) | color_number(foreground))
    }
}

/// White on black.
pub fn default_color_code() -> (r: ColorCode)
    ensures
        r == color_code_of(Color::White, Color::Black),
{
    ColorCode::new(Color::White, Color::Black)
}

#[derive(Debug, Clone, Copy, PartialEq, Eq, Structural)]
pub struct ScreenChar {
    pub ascii_character: u8,
    pub color_code: ColorCode,
}

impl ScreenChar {
    pub fn new(ascii_character: u8, color_code: ColorCode) -> (r: Self)
        ensures
            r == (ScreenChar { ascii_character, color_code }),
    {
        Self { ascii_character, color_code }
    }
}

/// The number of bytes of `bytes` that are not line breaks.
pub open spec fn printable_count(bytes: Seq<u8>) -> nat
    decreases bytes.len(),
{
    if bytes.len() == 0 {
        0
    } else {
        printable_count(bytes.drop_last()) + if bytes.last() == 10 {
            0nat
        } else {
            1nat
        }
    }
}

/// The screen after `bytes` are written in `color` on the bottom row from `column` on: line
/// breaks are dropped, every other byte takes the next column.
pub open spec fn put_bytes(chars: Seq<ScreenChar>, column: int, color: ColorCode, bytes: Seq<u8>) -> Seq<ScreenChar>
    decreases bytes.len(),
{
    if bytes.len() == 0 {
        chars
    } else {
        let before = put_bytes(chars, column, color, bytes.drop_last());
        if bytes.last() == 10 {
            before
        } else {
            before.update(
                (BUFFER_HEIGHT - 1) * BUFFER_WIDTH + column + printable_count(bytes.drop_last()),
                ScreenChar { ascii_character: bytes.last(), color_code: color },
            )
        }
    }
}

/// Writing one more byte is writing it after the others, at the column they reached.
pub proof fn lemma_put_bytes_push(chars: Seq<ScreenChar>, column: int, color: ColorCode, bytes: Seq<u8>, b: u8)
    ensures
        put_bytes(chars, column, color, bytes.push(b)) == put_bytes(
            put_bytes(chars, column, color, bytes),
            column + printable_count(bytes),
            color,
            seq![b],
        ),
        printable_count(bytes.push(b)) == printable_count(bytes) + printable_count(seq![b]),
{
    assert(bytes.push(b).drop_last() =~= bytes);
    assert(seq![b].drop_last() =~= Seq::<u8>::empty());
    reveal_with_fuel(printable_count, 2);
    reveal_with_fuel(put_bytes, 2);
}

pub proof fn lemma_printable_count_prefix(bytes: Seq<u8>, i: int)
    requires
        0 <= i <= bytes.len(),
    ensures
        printable_count(bytes.take(i)) <= printable_count(bytes),
    decreases bytes.len() - i,
{
    if i < bytes.len() {
        lemma_printable_count_prefix(bytes, i + 1);
        assert(bytes.take(i + 1).drop_last() =~= bytes.take(i));
    } else {
        assert(bytes.take(i) =~= bytes);
    }
}

/// The text-mode screen: `BUFFER_HEIGHT` rows of `BUFFER_WIDTH` characters, row by row;
/// text is written on the bottom row.
pub struct Writer {
    column_position: usize,
    color_code: ColorCode,
    chars: Vec<ScreenChar>,
}

impl Writer {
    pub closed spec fn column(&self) -> nat {
        self.column_position as nat
    }

    pub closed spec fn color(&self) -> ColorCode {
        self.color_code
    }

    /// The characters on screen, row by row.
    pub closed spec fn screen(&self) -> Seq<ScreenChar> {
        self.chars@
    }

    pub closed spec fn wf(&self) -> bool {
        &&& self.chars@.len() == BUFFER_HEIGHT * BUFFER_WIDTH
        &&& self.column_position <= BUFFER_WIDTH
    }

    /// A writer at the start of the bottom row of a screen showing `chars`, in white on black.
    pub fn new(chars: Vec<ScreenChar>) -> (r: Writer)
        requires
            chars@.len() == BUFFER_HEIGHT * BUFFER_WIDTH,
        ensures
            r.wf(),
            r.column() == 0,
            r.color() == color_code_of(Color::White, Color::Black),
            r.screen() == chars@,
    {
        Writer { column_position: 0, color_code: default_color_code(), chars }
    }

    /// The characters on screen, row by row.
    pub fn buffer(&self) -> (r: &Vec<ScreenChar>)
        ensures
            r@ == self.screen(),
    {
        &self.chars
    }

    /// The column of the cursor on the bottom row.
    pub fn column_position(&self) -> (r: usize)
        ensures
            r == self.column(),
    {
        self.column_position
    }

    pub fn set_color_code(&mut self, color_code: ColorCode)
        requires
            old(self).wf(),
        ensures
            final(self).wf(),
            final(self).color() == color_code,
            final(self).column() == old(self).column(),
            final(self).screen() == old(self).screen(),
    {
        self.color_code = color_code;
    }

    /// Writes `byte` at the cursor, which moves right; a line break leaves the screen as it is.
    pub fn write_byte(&mut self, byte: u8)
        requires
            old(self).wf(),
            byte != 10 ==> old(self).column() < BUFFER_WIDTH,
        ensures
            final(self).wf(),
            final(self).color() == old(self).color(),
            final(self).screen() == put_bytes(old(self).screen(), old(self).column() as int, old(self).color(), seq![byte]),
            final(self).column() == old(self).column() + printable_count(seq![byte]),
    {
        proof {
            assert(seq![byte].drop_last() =~= Seq::<u8>::empty());
            assert(seq![byte].last() == byte);
            reveal_with_fuel(printable_count, 2);
            reveal_with_fuel(put_bytes, 2);
        }
        match byte {
            10u8 => self.new_line(),
            byte => {
                if self.column_position >= BUFFER_WIDTH {
                    self.new_line();
                }
                let row = BUFFER_HEIGHT - 1;
                let col = self.column_position;
                let color_code = self.color_code;
                self.chars.set(row * BUFFER_WIDTH + col, ScreenChar { ascii_character: byte, color_code });
                self.column_position = self.column_position + 1;
            },
        }
    }

    /// Writes the bytes of `s` one after the other.
    pub fn write_str(&mut self, s: &str)
        requires
            old(self).wf(),
            old(self).column() + printable_count(s.spec_bytes()) <= BUFFER_WIDTH,
        ensures
            final(self).wf(),
            final(self).color() == old(self).color(),
            final(self).screen() == put_bytes(old(self).screen(), old(self).column() as int, old(self).color(), s.spec_bytes()),
            final(self).column() == old(self).column() + printable_count(s.spec_bytes()),
    {
        let bytes = s.as_bytes();
        let mut i: usize = 0;
        while i < bytes.len()
            invariant
                self.wf(),
                i <= bytes@.len(),
                bytes@ == s.spec_bytes(),
                old(self).column() + printable_count(bytes@) <= BUFFER_WIDTH,
                self.color() == old(self).color(),
                self.screen() == put_bytes(old(self).screen(), old(self).column() as int, old(self).color(), bytes@.take(i as int)),
                self.column() == old(self).column() + printable_count(bytes@.take(i as int)),
            decreases bytes@.len() - i,
        {
            proof {
                assert(bytes@.take(i + 1) =~= bytes@.take(i as int).push(bytes@[i as int]));
                lemma_put_bytes_push(old(self).screen(), old(self).column() as int, old(self).color(), bytes@.take(i as int), bytes@[i as int]);
                lemma_printable_count_prefix(bytes@, i + 1);
            }
            self.write_byte(bytes[i]);
            i = i + 1;
        }
        proof {
            assert(bytes@.take(i as int) =~= bytes@);
        }
    }

    /// Scrolling the screen is not done: a new line leaves the screen as it is.
    fn new_line(&mut self)
        ensures
            *final(self) == *old(self),
    {
    }

    /// Blanks row `row` with the current color.
    fn clear_row(&mut self, row: usize)
        requires
            old(self).wf(),
            row < BUFFER_HEIGHT,
        ensures
            final(self).wf(),
            final(self).color() == old(self).color(),
            final(self).column() == old(self).column(),
            forall|i: int|
                0 <= i < BUFFER_HEIGHT * BUFFER_WIDTH ==> #[trigger] final(self).screen()[i] == if row
                    * BUFFER_WIDTH <= i < (row + 1) * BUFFER_WIDTH {
                    ScreenChar { ascii_character: 32, color_code: old(self).color() }
                } else {
                    old(self).screen()[i]
                },
    {
        let blank = ScreenChar { ascii_character: 32u8, color_code: self.color_code };
        let mut col: usize = 0;
        while col < BUFFER_WIDTH
            invariant
                self.wf(),
                row < BUFFER_HEIGHT,
                col <= BUFFER_WIDTH,
                blank == (ScreenChar { ascii_character: 32, color_code: old(self).color() }),
                self.color() == old(self).color(),
                self.column() == old(self).column(),
                forall|i: int|
                    0 <= i < BUFFER_HEIGHT * BUFFER_WIDTH ==> #[trigger] self.screen()[i] == if row
                        * BUFFER_WIDTH <= i < row * BUFFER_WIDTH + col {
                        blank
                    } else {
                        old(self).screen()[i]
                    },
            decreases BUFFER_WIDTH - col,
        {
            let ghost before = *self;
            self.chars.set(row * BUFFER_WIDTH + col, blank);
            proof {
                assert forall|i: int| 0 <= i < BUFFER_HEIGHT * BUFFER_WIDTH implies #[trigger] self.screen()[i] == if row
                    * BUFFER_WIDTH <= i < row * BUFFER_WIDTH + col + 1 {
                    blank
                } else {
                    old(self).screen()[i]
                } by {
                    assert(before.screen()[i] == if row * BUFFER_WIDTH <= i < row * BUFFER_WIDTH + col {
                        blank
                    } else {
                        old(self).screen()[i]
                    });
                }
            }
            col = col + 1;
        }
    }

    /// Blanks the character left of the cursor and moves the cursor onto it.
    fn clear_char(&mut self)
        requires
            old(self).wf(),
            old(self).column() > 0,
        ensures
            final(self).wf(),
            final(self).color() == old(self).color(),
            final(self).column() == old(self).column() - 1,
            final(self).screen() == old(self).screen().update(
                (BUFFER_HEIGHT - 1) * BUFFER_WIDTH + old(self).column() - 1,
                ScreenChar { ascii_character: 32, color_code: old(self).color() },
            ),
    {
        let row = BUFFER_HEIGHT - 1;
        let col = self.column_position - 1;
        let color_code = self.color_code;
        self.chars.set(row * BUFFER_WIDTH + col, ScreenChar { ascii_character: 32u8, color_code });
        self.column_position = self.column_position - 1;
    }
}

/// Prints formatted text; output to the text-mode screen is switched off, so nothing is
/// written.
pub fn print(_text: &str) {
}

/// The label of a message header.
pub open spec fn header_label(header_type: MessageType) -> Seq<u8> {
    match header_type {
        MessageType::Info => seq![0x49u8, 0x4e, 0x46, 0x4f],
        MessageType::Warning => seq![0x57u8, 0x41, 0x52, 0x4e],
        MessageType::Error => seq![0x46u8, 0x41, 0x49, 0x4c],
        MessageType::Success => seq![0x20u8, 0x4f, 0x4b, 0x20],
    }
}

/// The color of the label of a message header.
pub open spec fn header_color(header_type: MessageType) -> ColorCode {
    match header_type {
        MessageType::Info => color_code_of(Color::DarkGray, Color::Black),
        MessageType::Warning => color_code_of(Color::Yellow, Color::Black),
        MessageType::Error => color_code_of(Color::Red, Color::Black),
        MessageType::Success => color_code_of(Color::Green, Color::Black),
    }
}

/// The header labels are the text "INFO", "WARN", "FAIL" and " OK ", drawn on black in
/// dark gray (0x08), yellow (0x0E), red (0x04) and green (0x02).
pub proof fn lemma_header_labels_and_colors()
    ensures
        header_label(MessageType::Info).len() == 4,
        header_label(MessageType::Warning).len() == 4,
        header_label(MessageType::Error).len() == 4,
        header_label(MessageType::Success).len() == 4,
        forall|k: int| 0 <= k < 4 ==> header_label(MessageType::Info)[k] as char == #[trigger] "INFO"@[k],
        forall|k: int| 0 <= k < 4 ==> header_label(MessageType::Warning)[k] as char == #[trigger] "WARN"@[k],
        forall|k: int| 0 <= k < 4 ==> header_label(MessageType::Error)[k] as char == #[trigger] "FAIL"@[k],
        forall|k: int| 0 <= k < 4 ==> header_label(MessageType::Success)[k] as char == #[trigger] " OK "@[k],
        header_color(MessageType::Info).0 == 0x08,
        header_color(MessageType::Warning).0 == 0x0E,
        header_color(MessageType::Error).0 == 0x04,
        header_color(MessageType::Success).0 == 0x02,
{
    reveal_strlit("INFO");
    reveal_strlit("WARN");
    reveal_strlit("FAIL");
    reveal_strlit(" OK ");
    assert forall|k: int| 0 <= k < 4 implies header_label(MessageType::Info)[k] as char == #[trigger] "INFO"@[k]
        && header_label(MessageType::Warning)[k] as char == "WARN"@[k] && header_label(MessageType::Error)[k] as char
        == "FAIL"@[k] && header_label(MessageType::Success)[k] as char == " OK "@[k] by {
        if k == 0 {} else if k == 1 {} else if k == 2 {} else {}
    }
    lemma_text_palette();
    lemma_nibbles(0, 8);
    lemma_nibbles(0, 14);
    lemma_nibbles(0, 4);
    lemma_nibbles(0, 2);
}

/// The screen after a header: "[ " in the current color, the label in its color, " ] " in
/// white on black.
pub open spec fn put_header(chars: Seq<ScreenChar>, column: int, color: ColorCode, header_type: MessageType) -> Seq<ScreenChar> {
    put_bytes(
        put_bytes(
            put_bytes(chars, column, color, seq![0x5bu8, 0x20]),
            column + 2,
            header_color(header_type),
            header_label(header_type),
        ),
        column + 6,
        color_code_of(Color::White, Color::Black),
        seq![0x20u8, 0x5d, 0x20],
    )
}

/// Writes the header of a message: "[ ", the label of `header_type` in its color, " ] ".
pub fn print_header(writer: &mut Writer, header_type: MessageType)
    requires
        old(writer).wf(),
        old(writer).column() + 9 <= BUFFER_WIDTH,
    ensures
        final(writer).wf(),
        final(writer).screen() == put_header(old(writer).screen(), old(writer).column() as int, old(writer).color(), header_type),
        final(writer).column() == old(writer).column() + 9,
        final(writer).color() == color_code_of(Color::White, Color::Black),
{
    proof {
        reveal_strlit("[ ");
        reveal_strlit(" ] ");
        reveal_strlit("INFO");
        reveal_strlit("WARN");
        reveal_strlit("FAIL");
        reveal_strlit(" OK ");
        vstd::string::is_ascii_spec_bytes("[ ");
        vstd::string::is_ascii_spec_bytes(" ] ");
        vstd::string::is_ascii_spec_bytes("INFO");
        vstd::string::is_ascii_spec_bytes("WARN");
        vstd::string::is_ascii_spec_bytes("FAIL");
        vstd::string::is_ascii_spec_bytes(" OK ");
        assert("[ ".spec_bytes() =~= seq![0x5bu8, 0x20]);
        assert(" ] ".spec_bytes() =~= seq![0x20u8, 0x5d, 0x20]);
        assert("INFO".spec_bytes() =~= seq![0x49u8, 0x4e, 0x46, 0x4f]);
        assert("WARN".spec_bytes() =~= seq![0x57u8, 0x41, 0x52, 0x4e]);
        assert("FAIL".spec_bytes() =~= seq![0x46u8, 0x41, 0x49, 0x4c]);
        assert(" OK ".spec_bytes() =~= seq![0x20u8, 0x4f, 0x4b, 0x20]);
        reveal_with_fuel(printable_count, 5);
    }
    match header_type {
        MessageType::Info => {
            writer.write_str("[ ");
            writer.set_color_code(ColorCode::new(Color::DarkGray, Color::Black));
            writer.write_str("INFO");
            writer.set_color_code(default_color_code());
            writer.write_str(" ] ");
        },
        MessageType::Warning => {
            writer.write_str("[ ");
            writer.set_color_code(ColorCode::new(Color::Yellow, Color::Black));
            writer.write_str("WARN");
            writer.set_color_code(default_color_code());
            writer.write_str(" ] ");
        },
        MessageType::Error => {
            writer.write_str("[ ");
            writer.set_color_code(ColorCode::new(Color::Red, Color::Black));
            writer.write_str("FAIL");
            writer.set_color_code(default_color_code());
            writer.write_str(" ] ");
        },
        MessageType::Success => {
            writer.write_str("[ ");
            writer.set_color_code(ColorCode::new(Color::Green, Color::Black));
            writer.write_str(" OK ");
            writer.set_color_code(default_color_code());
            writer.write_str(" ] ");
        },
    }
}

/// Prints `BUFFER_HEIGHT` empty lines; as output to the text-mode screen is switched off,
/// nothing is written.
pub fn clear_screen() {
    let mut i: usize = 0;
    while i < BUFFER_HEIGHT
        invariant
            i <= BUFFER_HEIGHT,
        decreases BUFFER_HEIGHT - i,
    {
        print("\n");
        i = i + 1;
    }
}

/// Erases the character left of the cursor.
pub fn backspace(writer: &mut Writer)
    requires
        old(writer).wf(),
        old(writer).column() > 0,
    ensures
        final(writer).wf(),
        final(writer).color() == old(writer).color(),
        final(writer).column() == old(writer).column() - 1,
        final(writer).screen() == old(writer).screen().update(
            (BUFFER_HEIGHT - 1) * BUFFER_WIDTH + old(writer).column() - 1,
            ScreenChar { ascii_character: 32, color_code: old(writer).color() },
        ),
{
    writer.clear_char();
}

} // verus!
