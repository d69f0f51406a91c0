use vstd::prelude::*;
use vstd::string::StringSliceAdditionalSpecFns;

verus! {

/// The kind of a log message, shown in its header.
pub enum LogLevel {
    Info,
    Warning,
    Error,
    Success,
}

/// A pixel color, `0xRRGGBB`.
#[derive(Debug, Clone, Copy, PartialEq, Eq, Structural)]
pub struct Rgb8(pub u32);

/// The value `Rgb8::new` builds from its three components: each one, taken as a 32-bit
/// number, is masked with the bits of its place.
pub open spec fn rgb8_value(r: u8, g: u8, b: u8) -> u32 {
    ((r as u32) & 0xFF0000u32) | ((g as u32) & 0xFF00u32) | ((b as u32) & 0xFFu32)
}

impl Rgb8 {
    /// Masks each component, taken as a 32-bit number, with the bits of its place; as the
    /// red and green components are not shifted there first, only the blue one remains.
    pub fn new(r: u8, g: u8, b: u8) -> (c: Self)
        ensures
            c.0 == rgb8_value(r, g, b),
            c.0 == b,
    {
        let v: u32 = (r as u32) & 0xFF0000u32 | (g as u32) & 0xFF00u32 | (b as u32) & 0xFFu32;
        proof {
            let (r32, g32, b32) = (r as u32, g as u32, b as u32);
            assert(r32 < 256 && g32 < 256 && b32 < 256);
            assert((r32 & 0xFF0000u32) | (g32 & 0xFF00u32) | (b32 & 0xFFu32) == b32) by (bit_vector)
                requires
                    r32 < 256 && g32 < 256 && b32 < 256,
            ;
        }
        Rgb8(v)
    }
}

/// A foreground and a background color.
#[derive(Debug, Clone, Copy, PartialEq, Eq, Structural)]
pub struct ColorCode {
    pub foreground: Rgb8,
    pub background: Rgb8,
}

impl ColorCode {
    pub fn new(foreground: Rgb8, background: Rgb8) -> (r: Self)
        ensures
            r == (ColorCode { foreground, background }),
    {
        Self { foreground, background }
    }
}

/// White on black.
pub open spec fn default_color() -> ColorCode {
    ColorCode { foreground: Rgb8(0xFFFFFF), background: Rgb8(0) }
}

/// White on black.
pub fn default_color_code() -> (r: ColorCode)
    ensures
        r == default_color(),
{
    ColorCode::new(Rgb8(0xFFFFFF), Rgb8(0))
}

/// A character and its colors.
#[derive(Debug, Clone, Copy, PartialEq, Eq, Structural)]
pub struct ScreenChar {
    pub ascii_character: u8,
    pub color_code: ColorCode,
}

impl ScreenChar {
    pub fn new(ascii_character: u8, color_code: ColorCode) -> (r: Self)
        ensures
            r == (ScreenChar { ascii_character, color_code }),
    {
        Self { ascii_character, color_code }
    }
}

/// The pixels of one row of a glyph, `width` of them: the bits of `glyph_row` from the highest
/// down, in the foreground color where a bit is set and in the background color elsewhere.
pub open spec fn scanrow_pixel(glyph_row: u8, cx: int, color_code: ColorCode) -> u32 {
    if glyph_row & (128u8 >> (cx as u8)) == 0 {
        color_code.background.0
    } else {
        color_code.foreground.0
    }
}

/// Pixel `cx` of a glyph row shows bit `7 - cx` of the row: the leftmost pixel the highest
/// bit, the eighth the lowest; it is in the foreground color where that bit is set.
pub proof fn lemma_scanrow_bit_order(glyph_row: u8, cx: int, color_code: ColorCode)
    requires
        0 <= cx < 8,
    ensures
        scanrow_pixel(glyph_row, cx, color_code) == if (glyph_row >> ((7 - cx) as u8)) & 1u8 == 1u8 {
            color_code.foreground.0
        } else {
            color_code.background.0
        },
{
    let c = cx as u8;
    let d = (7 - cx) as u8;
    assert(c < 8 && d == 7 - c);
    assert((glyph_row & (128u8 >> c) == 0u8) == ((glyph_row >> d) & 1u8 != 1u8)) by (bit_vector)
        requires
            c < 8u8,
            d == 7u8 - c,
    ;
}

/// The pixels of one row of a glyph, `width` of them, from left to right.
pub fn glyph_scanrow(glyph_row: u8, width: usize, color_code: ColorCode) -> (r: Vec<u32>)
    requires
        width <= 8,
    ensures
        r@.len() == width,
        forall|cx: int| 0 <= cx < width ==> #[trigger] r@[cx] == scanrow_pixel(glyph_row, cx, color_code),
        forall|cx: int|
            0 <= cx < width ==> #[trigger] r@[cx] == if (glyph_row >> ((7 - cx) as u8)) & 1u8 == 1u8 {
                color_code.foreground.0
            } else {
                color_code.background.0
            },
{
    let mask: [u8; 8] = [128, 64, 32, 16, 8, 4, 2, 1];
    let mut scanrow: Vec<u32> = Vec::new();
    let mut cx: usize = 0;
    while cx < width
        invariant
            cx <= width <= 8,
            scanrow@.len() == cx,
            mask@ == seq![128u8, 64, 32, 16, 8, 4, 2, 1],
            forall|k: int| 0 <= k < cx ==> #[trigger] scanrow@[k] == scanrow_pixel(glyph_row, k, color_code),
        decreases width - cx,
    {
        let m = mask[cx];
        proof {
            let c = cx as u8;
            assert(c < 8);
            assert(m == 128u8 >> c) by (bit_vector)
                requires
                    c < 8,
                    c == 0 ==> m == 128,
                    c == 1 ==> m == 64,
                    c == 2 ==> m == 32,
                    c == 3 ==> m == 16,
                    c == 4 ==> m == 8,
                    c == 5 ==> m == 4,
                    c == 6 ==> m == 2,
                    c == 7 ==> m == 1,
            ;
        }
        let color = if glyph_row & m == 0 {
            color_code.background
        } else {
            color_code.foreground
        };
        scanrow.push(color.0);
        cx = cx + 1;
    }
    proof {
        assert forall|cx: int| 0 <= cx < width implies #[trigger] scanrow@[cx] == if (glyph_row >> ((7
            - cx) as u8)) & 1u8 == 1u8 {
            color_code.foreground.0
        } else {
            color_code.background.0
        } by {
            lemma_scanrow_bit_order(glyph_row, cx, color_code);
        }
    }
    scanrow
}

/// The width of a glyph in pixels: one bit of a glyph row per pixel.
pub const GLYPH_WIDTH: usize = 8;

/// The byte offset in the framebuffer of the pixel at column `x` of pixel row `y`, with four
/// bytes per pixel and `pitch` bytes per pixel row.
pub open spec fn pixel_offset(x: int, y: int, pitch: int) -> int {
    y * pitch + x * 4
}

/// The scanlines that draw `screen_char`, whose glyph has the rows `glyph`, in the cell at
/// `column` and `row` of a framebuffer with `pitch` bytes per pixel row: for each glyph row,
/// the byte offset of its first pixel and its `GLYPH_WIDTH` pixels. A cell is `GLYPH_WIDTH`
/// pixels wide and one pixel row per glyph row high. Copying them to the screen is the
/// caller's part.
pub fn draw_char(screen_char: ScreenChar, glyph: &[u8], column: usize, row: usize, pitch: usize) -> (r: Vec<(usize, Vec<u32>)>)
    requires
        (row + 1) * glyph@.len() <= usize::MAX,
        (row + 1) * glyph@.len() * pitch + (column + 1) * GLYPH_WIDTH * 4 <= usize::MAX,
    ensures
        r@.len() == glyph@.len(),
        forall|cy: int|
            0 <= cy < glyph@.len() ==> {
                &&& (#[trigger] r@[cy]).0 == pixel_offset(column * GLYPH_WIDTH, cy + row * glyph@.len(), pitch as int)
                &&& r@[cy].1@ == Seq::new(GLYPH_WIDTH as nat, |cx: int| scanrow_pixel(glyph@[cy], cx, screen_char.color_code))
            },
{
    let height = glyph.len();
    let mut scanlines: Vec<(usize, Vec<u32>)> = Vec::new();
    let mut cy: usize = 0;
    while cy < height
        invariant
            cy <= height,
            height == glyph@.len(),
            (row + 1) * height <= usize::MAX,
            (row + 1) * height * pitch + (column + 1) * GLYPH_WIDTH * 4 <= usize::MAX,
            scanlines@.len() == cy,
            forall|k: int|
                0 <= k < cy ==> {
                    &&& (#[trigger] scanlines@[k]).0 == pixel_offset(column * GLYPH_WIDTH, k + row * height, pitch as int)
                    &&& scanlines@[k].1@ == Seq::new(GLYPH_WIDTH as nat, |cx: int| scanrow_pixel(glyph@[k], cx, screen_char.color_code))
                },
        decreases height - cy,
    {
        let scanrow = glyph_scanrow(glyph[cy], GLYPH_WIDTH, screen_char.color_code);
        proof {
            assert((cy + row * height) * pitch <= (row + 1) * height * pitch) by (nonlinear_arith)
                requires
                    cy < height,
            ;
            assert(column * GLYPH_WIDTH * 4 <= (column + 1) * GLYPH_WIDTH * 4) by (nonlinear_arith);
            assert(row * height + height == (row + 1) * height) by (nonlinear_arith);
        }
        let c = column * GLYPH_WIDTH;
        let r = cy + row * height;
        let offset = r * pitch + c * 4;
        assert(scanrow@ =~= Seq::new(GLYPH_WIDTH as nat, |cx: int| scanrow_pixel(glyph@[cy as int], cx, screen_char.color_code)));
        scanlines.push((offset, scanrow));
        cy = cy + 1;
    }
    scanlines
}

/// The screen scrolled up by one row of `width` cells: each row takes the one below it and
/// the bottom row is emptied.
pub open spec fn scroll(cells: Seq<Option<ScreenChar>>, width: nat) -> Seq<Option<ScreenChar>> {
    Seq::new(cells.len(), |i: int| if i + width < cells.len() { cells[i + width] } else { None })
}

/// Some character of a row below the top differs from the one above it, so that scrolling
/// redraws it.
pub open spec fn needs_redraw(cells: Seq<Option<ScreenChar>>, width: nat) -> bool {
    exists|i: int| width <= i < cells.len() && (#[trigger] cells[i]) is Some && cells[i] != cells[i - width]
}

/// The screen and the cursor after `screen_char` is written on the bottom row of a screen of
/// `width` by `height` cells, with the cursor at `column`: a line break scrolls; any other
/// character goes to the cursor, after a scroll when it fills the row.
pub open spec fn write_step(cells: Seq<Option<ScreenChar>>, width: nat, height: nat, column: nat, screen_char: ScreenChar) -> (Seq<Option<ScreenChar>>, nat) {
    if screen_char.ascii_character == 10 {
        (scroll(cells, width), 0)
    } else if column + 1 >= width {
        (scroll(cells, width).update((height - 1) * width + column, Some(screen_char)), 0)
    } else {
        (cells.update((height - 1) * width + column, Some(screen_char)), column + 1)
    }
}

/// The screen and the cursor after the bytes of `bytes` are written one after the other in
/// `color`.
pub open spec fn write_bytes(cells: Seq<Option<ScreenChar>>, width: nat, height: nat, column: nat, color: ColorCode, bytes: Seq<u8>) -> (Seq<Option<ScreenChar>>, nat)
    decreases bytes.len(),
{
    if bytes.len() == 0 {
        (cells, column)
    } else {
        let before = write_bytes(cells, width, height, column, color, bytes.drop_last());
        write_step(before.0, width, height, before.1, ScreenChar { ascii_character: bytes.last(), color_code: color })
    }
}

/// Writing `bytes` one after the other never scrolls the screen while scrolling would redraw
/// a character.
pub open spec fn writes_ok(cells: Seq<Option<ScreenChar>>, width: nat, height: nat, column: nat, color: ColorCode, bytes: Seq<u8>) -> bool
    decreases bytes.len(),
{
    if bytes.len() == 0 {
        true
    } else {
        let before = write_bytes(cells, width, height, column, color, bytes.drop_last());
        &&& writes_ok(cells, width, height, column, color, bytes.drop_last())
        &&& before.1 + 1 >= width ==> !needs_redraw(before.0, width)
    }
}

pub proof fn lemma_writes_ok_prefix(cells: Seq<Option<ScreenChar>>, width: nat, height: nat, column: nat, color: ColorCode, bytes: Seq<u8>, i: int)
    requires
        writes_ok(cells, width, height, column, color, bytes),
        0 <= i <= bytes.len(),
    ensures
        writes_ok(cells, width, height, column, color, bytes.take(i)),
    decreases bytes.len(),
{
    if i == bytes.len() {
        assert(bytes.take(i) =~= bytes);
    } else {
        lemma_writes_ok_prefix(cells, width, height, column, color, bytes.drop_last(), i);
        assert(bytes.drop_last().take(i) =~= bytes.take(i));
    }
}

pub proof fn lemma_cell_index(width: nat, height: nat, row: nat, col: nat)
    requires
        row < height,
        col < width,
    ensures
        row * width + col < width * height,
{
    assert(row * width + col < width * height) by (nonlinear_arith)
        requires
            row < height,
            col < width,
    ;
}

pub proof fn lemma_row_bound(width: nat, height: nat, row: nat)
    requires
        row < height,
    ensures
        row * width + width <= width * height,
        (row + 1) * width == row * width + width,
        row + 1 == height ==> row * width + width == width * height,
{
    assert(row * width + width <= width * height) by (nonlinear_arith)
        requires
            row < height,
    ;
    assert(row + 1 == height ==> row * width + width == width * height) by (nonlinear_arith);
    assert((row + 1) * width == row * width + width) by (nonlinear_arith);
}

/// A text console on a framebuffer: `buffer_height` rows of `buffer_width` cells, row by row,
/// each empty or holding a character; text is written on the bottom row.
pub struct Writer {
    color_code: ColorCode,
    buffer_width: usize,
    buffer_height: usize,
    column_position: usize,
    screen_buffer: Vec<Option<ScreenChar>>,
}

impl Writer {
    pub closed spec fn width(&self) -> nat {
        self.buffer_width as nat
    }

    pub closed spec fn height(&self) -> nat {
        self.buffer_height as nat
    }

    pub closed spec fn column(&self) -> nat {
        self.column_position as nat
    }

    pub closed spec fn color(&self) -> ColorCode {
        self.color_code
    }

    /// The cells, row by row.
    pub closed spec fn cells(&self) -> Seq<Option<ScreenChar>> {
        self.screen_buffer@
    }

    /// The cells hold the whole screen, and no cell holds a line break.
    pub closed spec fn wf(&self) -> bool {
        &&& self.screen_buffer@.len() == self.buffer_width * self.buffer_height
        &&& self.buffer_width * self.buffer_height <= usize::MAX
        &&& forall|i: int|
            0 <= i < self.screen_buffer@.len() && (#[trigger] self.screen_buffer@[i]) is Some
                ==> self.screen_buffer@[i]->0.ascii_character != 10
    }

    /// The cursor is on the screen.
    pub closed spec fn cursor_ok(&self) -> bool {
        self.column_position < self.buffer_width || self.column_position == 0
    }

    /// An empty screen of `buffer_width` by `buffer_height` cells, white on black, with the
    /// cursor at the start of the bottom row.
    pub fn new(buffer_width: usize, buffer_height: usize) -> (r: Writer)
        requires
            buffer_width * buffer_height <= usize::MAX,
        ensures
            r.wf(),
            r.cursor_ok(),
            r.width() == buffer_width,
            r.height() == buffer_height,
            r.column() == 0,
            r.color() == default_color(),
            r.cells() == Seq::new((buffer_width * buffer_height) as nat, |i: int| None::<ScreenChar>),
    {
        let size = buffer_width * buffer_height;
        let screen_buffer: Vec<Option<ScreenChar>> = vec![None; size];
        proof {
            assert(screen_buffer@ =~= Seq::new(size as nat, |i: int| None::<ScreenChar>));
        }
        Writer { color_code: default_color_code(), buffer_width, buffer_height, column_position: 0, screen_buffer }
    }

    /// The cells, row by row.
    pub fn screen_buffer(&self) -> (r: &Vec<Option<ScreenChar>>)
        ensures
            r@ == self.cells(),
    {
        &self.screen_buffer
    }

    /// The column of the cursor on the bottom row.
    pub fn column_position(&self) -> (r: usize)
        ensures
            r == self.column(),
    {
        self.column_position
    }

    /// The number of cells in a row.
    pub fn buffer_width(&self) -> (r: usize)
        ensures
            r == self.width(),
    {
        self.buffer_width
    }

    /// The number of rows.
    pub fn buffer_height(&self) -> (r: usize)
        ensures
            r == self.height(),
    {
        self.buffer_height
    }

    /// Whether scrolling would redraw a character: some character below the top row differs
    /// from the one above it.
    pub fn scroll_redraws(&self) -> (r: bool)
        requires
            self.wf(),
        ensures
            r == needs_redraw(self.cells(), self.width()),
    {
        let len = self.screen_buffer.len();
        let width = self.buffer_width;
        let mut i: usize = width;
        if i > len {
            return false;
        }
        while i < len
            invariant
                width == self.width(),
                len == self.cells().len(),
                width <= i <= len,
                forall|k: int|
                    width <= k < i ==> !((#[trigger] self.cells()[k]) is Some && self.cells()[k] != self.cells()[k - width]),
            decreases len - i,
        {
            let here = self.screen_buffer[i];
            if here.is_some() && !same_cell(here, self.screen_buffer[i - width]) {
                return true;
            }
            i = i + 1;
        }
        false
    }

    pub fn color_code(&self) -> (r: ColorCode)
        ensures
            r == self.color(),
    {
        self.color_code
    }

    pub fn set_color_code(&mut self, color_code: ColorCode)
        requires
            old(self).wf(),
        ensures
            final(self).wf(),
            final(self).cursor_ok() == old(self).cursor_ok(),
            final(self).color() == color_code,
            final(self).width() == old(self).width(),
            final(self).height() == old(self).height(),
            final(self).column() == old(self).column(),
            final(self).cells() == old(self).cells(),
    {
        self.color_code = color_code;
    }

    /// Writes `screen_char` at the cursor, which moves right; a line break, or a character
    /// that fills the row, scrolls the screen and brings the cursor back to the start of the
    /// row.
    pub fn write_char(&mut self, screen_char: ScreenChar)
        requires
            old(self).wf(),
            old(self).cursor_ok(),
            old(self).width() >= 1,
            old(self).height() >= 1,
            old(self).column() + 1 >= old(self).width() ==> !needs_redraw(old(self).cells(), old(self).width()),
        ensures
            final(self).wf(),
            final(self).cursor_ok(),
            final(self).color() == old(self).color(),
            final(self).width() == old(self).width(),
            final(self).height() == old(self).height(),
            (final(self).cells(), final(self).column()) == write_step(
                old(self).cells(),
                old(self).width(),
                old(self).height(),
                old(self).column(),
                screen_char,
            ),
    {
        let row = self.buffer_height - 1;
        let col = self.column_position;
        self.column_position = self.column_position + 1;
        self.write_at(screen_char, col, row);
    }

    /// Writes `screen_char` at column `col` of row `row`; a line break scrolls instead, and so
    /// does any character written once the cursor has left the row, before it is written.
    pub fn write_at(&mut self, screen_char: ScreenChar, col: usize, row: usize)
        requires
            old(self).wf(),
            old(self).height() >= 1,
            screen_char.ascii_character != 10 ==> col < old(self).width() && row < old(self).height(),
            screen_char.ascii_character == 10 || old(self).column() >= old(self).width() ==> old(self).column()
                < old(self).width() || !needs_redraw(old(self).cells(), old(self).width()),
        ensures
            final(self).wf(),
            final(self).color() == old(self).color(),
            final(self).width() == old(self).width(),
            final(self).height() == old(self).height(),
            screen_char.ascii_character == 10 ==> final(self).cells() == scroll(old(self).cells(), old(self).width())
                && final(self).column() == 0,
            screen_char.ascii_character != 10 && old(self).column() >= old(self).width() ==> final(self).cells()
                == scroll(old(self).cells(), old(self).width()).update(row * old(self).width() + col, Some(screen_char))
                && final(self).column() == 0,
            screen_char.ascii_character != 10 && old(self).column() < old(self).width() ==> final(self).cells()
                == old(self).cells().update(row * old(self).width() + col, Some(screen_char))
                && final(self).column() == old(self).column(),
        decreases (if screen_char.ascii_character == 10 || old(self).column() >= old(self).width() {
            2nat
        } else {
            0nat
        }),
    {
        if screen_char.ascii_character == 10 {
            self.new_line();
        } else {
            if self.column_position >= self.buffer_width {
                self.new_line();
            }
            proof {
                lemma_cell_index(self.width(), self.height(), row as nat, col as nat);
            }
            self.screen_buffer.set(row * self.buffer_width + col, Some(screen_char));
        }
    }

    /// Empties the cell at column `col` of row `row`.
    pub fn clear_at(&mut self, col: usize, row: usize)
        requires
            old(self).wf(),
            col < old(self).width(),
            row < old(self).height(),
        ensures
            final(self).wf(),
            final(self).color() == old(self).color(),
            final(self).width() == old(self).width(),
            final(self).height() == old(self).height(),
            final(self).column() == old(self).column(),
            final(self).cells() == old(self).cells().update(row * old(self).width() + col, None),
    {
        proof {
            lemma_cell_index(self.width(), self.height(), row as nat, col as nat);
        }
        self.screen_buffer.set(row * self.buffer_width + col, None);
    }

    /// Empties the cells of row `row`.
    fn clear_row(&mut self, row: usize)
        requires
            old(self).wf(),
            row < old(self).height(),
        ensures
            final(self).wf(),
            final(self).color() == old(self).color(),
            final(self).width() == old(self).width(),
            final(self).height() == old(self).height(),
            final(self).column() == old(self).column(),
            forall|i: int|
                0 <= i < old(self).cells().len() ==> #[trigger] final(self).cells()[i] == if row * old(self).width() <= i
                    < row * old(self).width() + old(self).width() {
                    None
                } else {
                    old(self).cells()[i]
                },
            final(self).cells().len() == old(self).cells().len(),
    {
        let mut col: usize = 0;
        while col < self.buffer_width
            invariant
                self.wf(),
                row < self.height(),
                col <= self.width(),
                self.color() == old(self).color(),
                self.width() == old(self).width(),
                self.height() == old(self).height(),
                self.column() == old(self).column(),
                self.cells().len() == old(self).cells().len(),
                forall|i: int|
                    0 <= i < old(self).cells().len() ==> #[trigger] self.cells()[i] == if row * old(self).width() <= i < row
                        * old(self).width() + col {
                        None
                    } else {
                        old(self).cells()[i]
                    },
            decreases self.width() - col,
        {
            let ghost before = self.cells();
            proof {
                lemma_cell_index(self.width(), self.height(), row as nat, col as nat);
            }
            self.clear_at(col, row);
            proof {
                assert forall|i: int| 0 <= i < old(self).cells().len() implies #[trigger] self.cells()[i] == if row
                    * old(self).width() <= i < row * old(self).width() + col + 1 {
                    None
                } else {
                    old(self).cells()[i]
                } by {
                    assert(before[i] == if row * old(self).width() <= i < row * old(self).width() + col {
                        None
                    } else {
                        old(self).cells()[i]
                    });
                }
            }
            col = col + 1;
        }
    }

    /// Scrolls the screen up by one row, each row taking the one below it, and brings the
    /// cursor to the start of the emptied bottom row. Only the cells that change are
    /// redrawn.
    pub fn new_line(&mut self)
        requires
            old(self).wf(),
            old(self).height() >= 1,
            old(self).column() < old(self).width() || !needs_redraw(old(self).cells(), old(self).width()),
        ensures
            final(self).wf(),
            final(self).cursor_ok(),
            final(self).color() == old(self).color(),
            final(self).width() == old(self).width(),
            final(self).height() == old(self).height(),
            final(self).cells() == scroll(old(self).cells(), old(self).width()),
            final(self).column() == 0,
        decreases 1nat,
    {
        let ghost old_cells = self.cells();
        let ghost w = self.width();
        let ghost h = self.height();
        let width = self.buffer_width;
        let height = self.buffer_height;
        let mut top_base: usize = 0;
        let mut row: usize = 1;
        while row < height
            invariant
                self.wf(),
                1 <= row <= height,
                w == width == self.width(),
                h == height == self.height(),
                self.color() == old(self).color(),
                self.column() == old(self).column(),
                old_cells == old(self).cells(),
                self.cells().len() == old_cells.len() == w * h,
                top_base == (row - 1) * w,
                old(self).column() < w || !needs_redraw(old_cells, w),
                forall|j: int| 0 <= j < top_base ==> #[trigger] self.cells()[j] == old_cells[j + w],
                forall|j: int| top_base <= j < old_cells.len() ==> #[trigger] self.cells()[j] == old_cells[j],
            decreases height - row,
        {
            proof {
                lemma_row_bound(w, h, row as nat);
                lemma_row_bound(w, h, (row - 1) as nat);
            }
            let bottom_base = top_base + width;
            let mut col: usize = 0;
            while col < width
                invariant
                    self.wf(),
                    1 <= row < height,
                    col <= width,
                    w == width == self.width(),
                    h == height == self.height(),
                    self.color() == old(self).color(),
                    self.column() == old(self).column(),
                    old_cells == old(self).cells(),
                    self.cells().len() == old_cells.len() == w * h,
                    top_base == (row - 1) * w,
                    bottom_base == top_base + w,
                    bottom_base == row * w,
                    old(self).column() < w || !needs_redraw(old_cells, w),
                    forall|j: int| 0 <= j < top_base + col ==> #[trigger] self.cells()[j] == old_cells[j + w],
                    forall|j: int| top_base + col <= j < old_cells.len() ==> #[trigger] self.cells()[j] == old_cells[j],
                decreases width - col,
            {
                proof {
                    lemma_cell_index(w, h, row as nat, col as nat);
                }
                let bottom_character = self.screen_buffer[bottom_base + col];
                let top_character = self.screen_buffer[top_base + col];
                if !same_cell(top_character, bottom_character) {
                    if let Some(character) = bottom_character {
                        proof {
                            assert(needs_redraw(old_cells, w)) by {
                                assert(old_cells[bottom_base + col] is Some);
                            }
                        }
                        self.write_at(character, col, row - 1);
                    } else {
                        self.clear_at(col, row - 1);
                    }
                }
                col = col + 1;
            }
            top_base = bottom_base;
            row = row + 1;
        }
        proof {
            lemma_row_bound(w, h, (h - 1) as nat);
        }
        let ghost mid = self.cells();
        assert(top_base == (h - 1) * w);
        self.clear_row(height - 1);
        self.column_position = 0;
        proof {
            assert forall|i: int| 0 <= i < old_cells.len() implies #[trigger] self.cells()[i] == scroll(old_cells, w)[i] by {
                if i < (h - 1) * w {
                    assert(i + w < old_cells.len());
                    assert(mid[i] == old_cells[i + w]);
                } else {
                    assert(i + w >= old_cells.len());
                }
            }
            assert(self.cells() =~= scroll(old_cells, w));
        }
    }

    /// Erases the character left of the cursor and moves the cursor onto it.
    pub fn clear_char(&mut self)
        requires
            old(self).wf(),
            old(self).cursor_ok(),
            old(self).height() >= 1,
            old(self).column() > 0,
        ensures
            final(self).wf(),
            final(self).cursor_ok(),
            final(self).color() == old(self).color(),
            final(self).width() == old(self).width(),
            final(self).height() == old(self).height(),
            final(self).column() == old(self).column() - 1,
            final(self).cells() == old(self).cells().update(
                (old(self).height() - 1) * old(self).width() + old(self).column() - 1,
                None,
            ),
    {
        let row = self.buffer_height - 1;
        let col = self.column_position - 1;
        self.column_position = self.column_position - 1;
        self.clear_at(col, row);
    }

    /// Writes the bytes of `s` one after the other in the current color.
    pub fn write_str(&mut self, s: &str)
        requires
            old(self).wf(),
            old(self).cursor_ok(),
            old(self).height() >= 1,
            old(self).width() >= 1,
            writes_ok(
                old(self).cells(),
                old(self).width(),
                old(self).height(),
                old(self).column(),
                old(self).color(),
                s.spec_bytes(),
            ),
        ensures
            final(self).wf(),
            final(self).cursor_ok(),
            final(self).color() == old(self).color(),
            final(self).width() == old(self).width(),
            final(self).height() == old(self).height(),
            (final(self).cells(), final(self).column()) == write_bytes(
                old(self).cells(),
                old(self).width(),
                old(self).height(),
                old(self).column(),
                old(self).color(),
                s.spec_bytes(),
            ),
    {
        let bytes = s.as_bytes();
        let mut i: usize = 0;
        while i < bytes.len()
            invariant
                self.wf(),
                self.cursor_ok(),
                i <= bytes@.len(),
                bytes@ == s.spec_bytes(),
                self.height() >= 1,
                self.width() >= 1,
                self.color() == old(self).color(),
                self.width() == old(self).width(),
                self.height() == old(self).height(),
                writes_ok(
                    old(self).cells(),
                    old(self).width(),
                    old(self).height(),
                    old(self).column(),
                    old(self).color(),
                    bytes@,
                ),
                (self.cells(), self.column()) == write_bytes(
                    old(self).cells(),
                    old(self).width(),
                    old(self).height(),
                    old(self).column(),
                    old(self).color(),
                    bytes@.take(i as int),
                ),
            decreases bytes@.len() - i,
        {
            proof {
                assert(bytes@.take(i + 1).drop_last() =~= bytes@.take(i as int));
                lemma_writes_ok_prefix(
                    old(self).cells(),
                    old(self).width(),
                    old(self).height(),
                    old(self).column(),
                    old(self).color(),
                    bytes@,
                    i + 1,
                );
            }
            let color_code = self.color_code;
            self.write_char(ScreenChar::new(bytes[i], color_code));
            i = i + 1;
        }
        proof {
            assert(bytes@.take(i as int) =~= bytes@);
        }
    }
}

/// The two cells hold the same thing.
fn same_cell(a: Option<ScreenChar>, b: Option<ScreenChar>) -> (r: bool)
    ensures
        r == (a == b),
{
    match (a, b) {
        (Some(x), Some(y)) => x == y,
        (None, None) => true,
        _ => false,
    }
}

/// The label of a log header.
pub open spec fn level_label(level: LogLevel) -> Seq<u8> {
    match level {
        LogLevel::Info => seq![0x49u8, 0x4e, 0x46, 0x4f],
        LogLevel::Warning => seq![0x57u8, 0x41, 0x52, 0x4e],
        LogLevel::Error => seq![0x46u8, 0x41, 0x49, 0x4c],
        LogLevel::Success => seq![0x20u8, 0x4f, 0x4b, 0x20],
    }
}

/// The color of the label of a log header, on black.
pub open spec fn level_color(level: LogLevel) -> ColorCode {
    let foreground = match level {
        LogLevel::Info => Rgb8(0x5b616b),
        LogLevel::Warning => Rgb8(0xFFFF00),
        LogLevel::Error => Rgb8(0xFF4100),
        LogLevel::Success => Rgb8(0x00FF00),
    };
    ColorCode { foreground, background: Rgb8(0) }
}

/// The screen and the cursor after a log header: "[ " in `color`, the label of `level` in its
/// color, " ] " in white on black.
pub open spec fn header_written(cells: Seq<Option<ScreenChar>>, width: nat, height: nat, column: nat, color: ColorCode, level: LogLevel) -> (Seq<Option<ScreenChar>>, nat) {
    let open_bracket = write_bytes(cells, width, height, column, color, seq![0x5bu8, 0x20]);
    let label = write_bytes(open_bracket.0, width, height, open_bracket.1, level_color(level), level_label(level));
    write_bytes(label.0, width, height, label.1, default_color(), seq![0x20u8, 0x5d, 0x20])
}

/// Writing a log header never scrolls the screen while scrolling would redraw a character.
pub open spec fn header_ok(cells: Seq<Option<ScreenChar>>, width: nat, height: nat, column: nat, color: ColorCode, level: LogLevel) -> bool {
    let open_bracket = write_bytes(cells, width, height, column, color, seq![0x5bu8, 0x20]);
    let label = write_bytes(open_bracket.0, width, height, open_bracket.1, level_color(level), level_label(level));
    &&& writes_ok(cells, width, height, column, color, seq![0x5bu8, 0x20])
    &&& writes_ok(open_bracket.0, width, height, open_bracket.1, level_color(level), level_label(level))
    &&& writes_ok(label.0, width, height, label.1, default_color(), seq![0x20u8, 0x5d, 0x20])
}

/// Writes the header of a log message: "[ ", the label of `header_type` in its color, " ] ";
/// the color is white on black afterwards.
pub fn print_header(writer: &mut Writer, header_type: LogLevel)
    requires
        old(writer).wf(),
        old(writer).cursor_ok(),
        old(writer).height() >= 1,
        old(writer).width() >= 1,
        header_ok(
            old(writer).cells(),
            old(writer).width(),
            old(writer).height(),
            old(writer).column(),
            old(writer).color(),
            header_type,
        ),
    ensures
        final(writer).wf(),
        final(writer).cursor_ok(),
        final(writer).width() == old(writer).width(),
        final(writer).height() == old(writer).height(),
        final(writer).color() == default_color(),
        (final(writer).cells(), final(writer).column()) == header_written(
            old(writer).cells(),
            old(writer).width(),
            old(writer).height(),
            old(writer).column(),
            old(writer).color(),
            header_type,
        ),
{
    proof {
        reveal_strlit("[ ");
        reveal_strlit(" ] ");
        reveal_strlit("INFO");
        reveal_strlit("WARN");
        reveal_strlit("FAIL");
        reveal_strlit(" OK ");
        vstd::string::is_ascii_spec_bytes("[ ");
        vstd::string::is_ascii_spec_bytes(" ] ");
        vstd::string::is_ascii_spec_bytes("INFO");
        vstd::string::is_ascii_spec_bytes("WARN");
        vstd::string::is_ascii_spec_bytes("FAIL");
        vstd::string::is_ascii_spec_bytes(" OK ");
        assert("[ ".spec_bytes() =~= seq![0x5bu8, 0x20]);
        assert(" ] ".spec_bytes() =~= seq![0x20u8, 0x5d, 0x20]);
        assert("INFO".spec_bytes() =~= seq![0x49u8, 0x4e, 0x46, 0x4f]);
        assert("WARN".spec_bytes() =~= seq![0x57u8, 0x41, 0x52, 0x4e]);
        assert("FAIL".spec_bytes() =~= seq![0x46u8, 0x41, 0x49, 0x4c]);
        assert(" OK ".spec_bytes() =~= seq![0x20u8, 0x4f, 0x4b, 0x20]);
    }
    match header_type {
        LogLevel::Info => {
            writer.write_str("[ ");
            writer.set_color_code(ColorCode::new(Rgb8(0x5b616b), Rgb8(0)));
            writer.write_str("INFO");
            writer.set_color_code(default_color_code());
            writer.write_str(" ] ");
        },
        LogLevel::Warning => {
            writer.write_str("[ ");
            writer.set_color_code(ColorCode::new(Rgb8(0xFFFF00), Rgb8(0)));
            writer.write_str("WARN");
            writer.set_color_code(default_color_code());
            writer.write_str(" ] ");
        },
        LogLevel::Error => {
            writer.write_str("[ ");
            writer.set_color_code(ColorCode::new(Rgb8(0xFF4100), Rgb8(0)));
            writer.write_str("FAIL");
            writer.set_color_code(default_color_code());
            writer.write_str(" ] ");
        },
        LogLevel::Success => {
            writer.write_str("[ ");
            writer.set_color_code(ColorCode::new(Rgb8(0x00FF00), Rgb8(0)));
            writer.write_str(" OK ");
            writer.set_color_code(default_color_code());
            writer.write_str(" ] ");
        },
    }
}

/// Erases the character left of the cursor.
pub fn backspace(writer: &mut Writer)
    requires
        old(writer).wf(),
        old(writer).cursor_ok(),
        old(writer).height() >= 1,
        old(writer).column() > 0,
    ensures
        final(writer).wf(),
        final(writer).cursor_ok(),
        final(writer).color() == old(writer).color(),
        final(writer).width() == old(writer).width(),
        final(writer).height() == old(writer).height(),
        final(writer).column() == old(writer).column() - 1,
        final(writer).cells() == old(writer).cells().update(
            (old(writer).height() - 1) * old(writer).width() + old(writer).column() - 1,
            None,
        ),
{
    writer.clear_char();
}

} // verus!
