use vstd::prelude::*;
pub use super::framebuffer_device::{ColorCode, LogLevel, Rgb8};
pub use super::framebuffer_device::GLYPH_WIDTH;
use super::framebuffer_device::{default_color, default_color_code, glyph_scanrow, scanrow_pixel};

verus! {

/// The pixel at column `cx` of row `cy` of the glyph whose rows are `glyph`: white where the
/// row's bit for that column is set, black elsewhere.
pub open spec fn glyph_pixel(glyph: Seq<u8>, cx: int, cy: int) -> u32 {
    scanrow_pixel(glyph[cy], cx, default_color())
}

/// The pixels `pixels`, indexed by column then row, with the glyph whose rows are `glyph`
/// drawn from column `col` and row `row` on: `GLYPH_WIDTH` columns and one row per glyph row.
pub open spec fn drawn(pixels: Seq<Seq<u32>>, glyph: Seq<u8>, col: int, row: int) -> Seq<Seq<u32>> {
    Seq::new(
        pixels.len(),
        |x: int|
            Seq::new(
                pixels[x].len(),
                |y: int|
                    if col <= x < col + GLYPH_WIDTH && row <= y < row + glyph.len() {
                        glyph_pixel(glyph, x - col, y - row)
                    } else {
                        pixels[x][y]
                    },
            ),
    )
}

/// The part of `drawn` that is done once the glyph rows before `cy` are drawn, and the
/// columns before `cx` of row `cy`.
pub open spec fn drawn_upto(pixels: Seq<Seq<u32>>, glyph: Seq<u8>, col: int, row: int, cy: int, cx: int) -> Seq<Seq<u32>> {
    Seq::new(
        pixels.len(),
        |x: int|
            Seq::new(
                pixels[x].len(),
                |y: int|
                    if col <= x < col + GLYPH_WIDTH && row <= y < row + cy {
                        glyph_pixel(glyph, x - col, y - row)
                    } else if col <= x < col + cx && y == row + cy {
                        glyph_pixel(glyph, x - col, y - row)
                    } else {
                        pixels[x][y]
                    },
            ),
    )
}

/// A console that draws into a back buffer of pixels before copying it to the screen.
pub struct FramebufferWriter {
    pub buffer_height: usize,
    pub buffer_width: usize,
    pub column_position: usize,
    /// The pixels, `buffer_height` rows of `buffer_width`
    pub back_buffer: Vec<Vec<u32>>,
}

impl FramebufferWriter {
    /// A console for a screen of `buffer_width` by `buffer_height` pixels, all black, with the
    /// cursor at the first column.
    pub fn new(buffer_width: usize, buffer_height: usize) -> (r: Self)
        ensures
            r.buffer_width == buffer_width,
            r.buffer_height == buffer_height,
            r.column_position == 0,
            r.back_buffer@.len() == buffer_height,
            forall|y: int| 0 <= y < buffer_height ==> (#[trigger] r.back_buffer@[y])@ == Seq::new(buffer_width as nat, |x: int| 0u32),
    {
        let mut back_buffer: Vec<Vec<u32>> = Vec::new();
        let mut y: usize = 0;
        while y < buffer_height
            invariant
                y <= buffer_height,
                back_buffer@.len() == y,
                forall|k: int| 0 <= k < y ==> (#[trigger] back_buffer@[k])@ == Seq::new(buffer_width as nat, |x: int| 0u32),
            decreases buffer_height - y,
        {
            let line: Vec<u32> = vec![0u32; buffer_width];
            assert(line@ =~= Seq::new(buffer_width as nat, |x: int| 0u32));
            back_buffer.push(line);
            y = y + 1;
        }
        FramebufferWriter { buffer_height, buffer_width, column_position: 0, back_buffer }
    }

    /// The back buffer's pixels, indexed by column then row.
    pub open spec fn pixels(&self) -> Seq<Seq<u32>> {
        Seq::new(self.back_buffer@.len(), |x: int| self.back_buffer@[x]@)
    }

    /// Draws `character`, whose glyph has the rows `glyph`, into the back buffer from column
    /// `col` and row `row` on, white on black; a line break draws nothing. The buffer is
    /// indexed by column first. Showing the buffer on the screen is the caller's part.
    pub fn write_char_at(&mut self, character: u8, glyph: &[u8], col: usize, row: usize)
        requires
            character != 10 ==> {
                &&& col + GLYPH_WIDTH <= old(self).back_buffer@.len()
                &&& forall|x: int|
                    col <= x < col + GLYPH_WIDTH ==> row + glyph@.len() <= (#[trigger] old(self).back_buffer@[x])@.len()
            },
        ensures
            final(self).buffer_height == old(self).buffer_height,
            final(self).buffer_width == old(self).buffer_width,
            final(self).column_position == old(self).column_position,
            final(self).pixels() == if character == 10 {
                old(self).pixels()
            } else {
                drawn(old(self).pixels(), glyph@, col as int, row as int)
            },
    {
        if character == 10 {
            return;
        }
        let color_code = default_color_code();
        let ghost start = self.pixels();
        let ghost g = glyph@;
        let column_height = self.back_buffer[col].len();
        assert(row + g.len() <= column_height);
        let mut cy: usize = 0;
        assert(self.pixels() =~~= drawn_upto(start, g, col as int, row as int, 0, 0));
        while cy < glyph.len()
            invariant
                cy <= glyph@.len(),
                g == glyph@,
                row + g.len() <= usize::MAX,
                color_code == default_color(),
                col + GLYPH_WIDTH <= start.len(),
                forall|x: int| col <= x < col + GLYPH_WIDTH ==> row + g.len() <= (#[trigger] start[x]).len(),
                self.pixels() == drawn_upto(start, g, col as int, row as int, cy as int, 0),
                self.back_buffer@.len() == start.len(),
                self.buffer_height == old(self).buffer_height,
                self.buffer_width == old(self).buffer_width,
                self.column_position == old(self).column_position,
            decreases glyph@.len() - cy,
        {
            let scanrow = glyph_scanrow(glyph[cy], GLYPH_WIDTH, color_code);
            let mut cx: usize = 0;
            while cx < GLYPH_WIDTH
                invariant
                    cx <= GLYPH_WIDTH,
                    cy < g.len(),
                    g == glyph@,
                    row + g.len() <= usize::MAX,
                    col + GLYPH_WIDTH <= self.back_buffer.len(),
                    scanrow@.len() == GLYPH_WIDTH,
                    forall|k: int| 0 <= k < GLYPH_WIDTH ==> #[trigger] scanrow@[k] == scanrow_pixel(g[cy as int], k, default_color()),
                    col + GLYPH_WIDTH <= start.len(),
                    forall|x: int| col <= x < col + GLYPH_WIDTH ==> row + g.len() <= (#[trigger] start[x]).len(),
                    self.pixels() == drawn_upto(start, g, col as int, row as int, cy as int, cx as int),
                    self.back_buffer@.len() == start.len(),
                    self.buffer_height == old(self).buffer_height,
                    self.buffer_width == old(self).buffer_width,
                    self.column_position == old(self).column_position,
                decreases GLYPH_WIDTH - cx,
            {
                let ghost before = self.pixels();
                let x = col + cx;
                let y = row + cy;
                let pixel = scanrow[cx];
                assert(before[x as int] == self.back_buffer@[x as int]@);
                assert(before[x as int].len() == start[x as int].len());
                self.back_buffer[x].set(y, pixel);
                proof {
                    let target = drawn_upto(start, g, col as int, row as int, cy as int, (cx + 1) as int);
                    assert(pixel == glyph_pixel(g, x - col, y - row));
                    assert forall|i: int| 0 <= i < start.len() implies #[trigger] self.pixels()[i] =~= target[i] by {
                        if i == x {
                            assert(self.pixels()[i] == before[i].update(y as int, pixel));
                        } else {
                            assert(self.pixels()[i] == before[i]);
                        }
                    }
                    assert(self.pixels() =~= target);
                }
                cx = cx + 1;
            }
            assert(drawn_upto(start, g, col as int, row as int, cy as int, GLYPH_WIDTH as int) =~~= drawn_upto(start, g, col as int, row as int, (cy + 1) as int, 0));
            cy = cy + 1;
        }
        assert(drawn_upto(start, g, col as int, row as int, g.len() as int, 0) =~~= drawn(start, g, col as int, row as int));
    }
}

} // verus!
