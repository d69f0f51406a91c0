use toast::graphics::framebuffer_device::{
    backspace as fb_backspace, default_color_code as fb_default_color, draw_char, glyph_scanrow, print_header as fb_print_header,
    ColorCode as FbColorCode, LogLevel, Rgb8, ScreenChar as FbScreenChar, Writer as FbWriter,
};
use toast::graphics::writer::FramebufferWriter;
use toast::vga_buffer::{
    backspace, color_number, default_color_code, print_header, Color, ColorCode, MessageType, ScreenChar, Writer,
    BUFFER_HEIGHT, BUFFER_WIDTH,
};

fn blank_screen() -> Vec<ScreenChar> {
    vec![ScreenChar::new(b' ', ColorCode(0x07)); BUFFER_HEIGHT * BUFFER_WIDTH]
}

fn bottom_row(writer: &Writer) -> Vec<ScreenChar> {
    writer.buffer()[(BUFFER_HEIGHT - 1) * BUFFER_WIDTH..].to_vec()
}

#[test]
fn vga_color_codes() {
    assert_eq!(color_number(Color::Pink), 13);
    assert_eq!(ColorCode::new(Color::Yellow, Color::Blue), ColorCode(0x1e));
    assert_eq!(default_color_code(), ColorCode(0x0f));
}

#[test]
fn vga_write_str_fills_the_bottom_row() {
    let mut writer = Writer::new(blank_screen());
    writer.write_str("Hi\n!");
    let row = bottom_row(&writer);
    assert_eq!(row[0], ScreenChar::new(b'H', ColorCode(0x0f)));
    assert_eq!(row[1], ScreenChar::new(b'i', ColorCode(0x0f)));
    // The line break leaves the screen as it is (scrolling is switched off).
    assert_eq!(row[2], ScreenChar::new(b'!', ColorCode(0x0f)));
    assert_eq!(writer.column_position(), 3);
    // Rows above are untouched.
    assert_eq!(writer.buffer()[0], ScreenChar::new(b' ', ColorCode(0x07)));
}

#[test]
fn vga_print_header_colors_the_label() {
    let mut writer = Writer::new(blank_screen());
    print_header(&mut writer, MessageType::Warning);
    let row = bottom_row(&writer);
    let text: Vec<u8> = row[0..9].iter().map(|c| c.ascii_character).collect();
    assert_eq!(text, b"[ WARN ] ".to_vec());
    assert_eq!(row[0].color_code, ColorCode(0x0f));
    assert_eq!(row[2].color_code, ColorCode::new(Color::Yellow, Color::Black));
    assert_eq!(row[5].color_code, ColorCode::new(Color::Yellow, Color::Black));
    assert_eq!(row[6].color_code, ColorCode(0x0f));
    assert_eq!(writer.column_position(), 9);
}

#[test]
fn vga_success_header() {
    let mut writer = Writer::new(blank_screen());
    print_header(&mut writer, MessageType::Success);
    let text: Vec<u8> = bottom_row(&writer)[0..9].iter().map(|c| c.ascii_character).collect();
    assert_eq!(text, b"[  OK  ] ".to_vec());
}

#[test]
fn vga_backspace_blanks_the_last_character() {
    let mut writer = Writer::new(blank_screen());
    writer.write_str("ab");
    backspace(&mut writer);
    let row = bottom_row(&writer);
    assert_eq!(row[1], ScreenChar::new(b' ', ColorCode(0x0f)));
    assert_eq!(row[0].ascii_character, b'a');
    assert_eq!(writer.column_position(), 1);
}

#[test]
fn rgb8_new_keeps_only_the_blue_component() {
    assert_eq!(Rgb8::new(0x12, 0x34, 0x56), Rgb8(0x56));
    assert_eq!(Rgb8::new(0xff, 0xff, 0x00), Rgb8(0));
}

#[test]
fn glyph_scanrow_colors_set_bits() {
    let colors = FbColorCode::new(Rgb8(0xffffff), Rgb8(0x000010));
    let row = glyph_scanrow(0b1010_0001, 8, colors);
    assert_eq!(row, vec![0xffffff, 0x10, 0xffffff, 0x10, 0x10, 0x10, 0x10, 0xffffff]);
    assert_eq!(glyph_scanrow(0xff, 3, colors), vec![0xffffff; 3]);
}

fn fb_char(c: u8) -> FbScreenChar {
    FbScreenChar::new(c, fb_default_color())
}

#[test]
fn framebuffer_console_writes_on_the_bottom_row() {
    let mut writer = FbWriter::new(10, 3);
    assert!(writer.screen_buffer().iter().all(|c| c.is_none()));
    writer.write_char(fb_char(b'a'));
    writer.write_char(fb_char(b'b'));
    assert_eq!(writer.screen_buffer()[20], Some(fb_char(b'a')));
    assert_eq!(writer.screen_buffer()[21], Some(fb_char(b'b')));
    assert_eq!(writer.column_position(), 2);
}

#[test]
fn framebuffer_console_scrolls_on_a_line_break() {
    let mut writer = FbWriter::new(4, 3);
    writer.write_char(fb_char(b'x'));
    writer.write_char(fb_char(b'\n'));
    // The row moved up, the bottom row is empty, the cursor is back at the start.
    assert_eq!(writer.screen_buffer()[4], Some(fb_char(b'x')));
    assert!(writer.screen_buffer()[8..].iter().all(|c| c.is_none()));
    assert_eq!(writer.column_position(), 0);
    writer.write_char(fb_char(b'\n'));
    assert_eq!(writer.screen_buffer()[0], Some(fb_char(b'x')));
    assert!(writer.screen_buffer()[4..].iter().all(|c| c.is_none()));
}

#[test]
fn framebuffer_console_wraps_a_full_row_on_an_empty_screen() {
    // A single-row console: scrolling redraws nothing, so a full row wraps.
    let mut writer = FbWriter::new(3, 1);
    writer.write_char(fb_char(b'a'));
    writer.write_char(fb_char(b'b'));
    writer.write_char(fb_char(b'c'));
    assert_eq!(writer.screen_buffer().to_vec(), vec![None, None, Some(fb_char(b'c'))]);
    assert_eq!(writer.column_position(), 0);
}

#[test]
fn framebuffer_header_and_backspace() {
    let mut writer = FbWriter::new(40, 2);
    fb_print_header(&mut writer, LogLevel::Error);
    let row: Vec<Option<FbScreenChar>> = writer.screen_buffer()[40..49].to_vec();
    let text: Vec<u8> = row.iter().map(|c| c.unwrap().ascii_character).collect();
    assert_eq!(text, b"[ FAIL ] ".to_vec());
    assert_eq!(row[2].unwrap().color_code, FbColorCode::new(Rgb8(0xFF4100), Rgb8(0)));
    assert_eq!(row[7].unwrap().color_code, fb_default_color());
    assert_eq!(writer.color_code(), fb_default_color());
    assert_eq!(writer.column_position(), 9);
    fb_backspace(&mut writer);
    assert_eq!(writer.screen_buffer()[48], None);
    assert_eq!(writer.column_position(), 8);
}

#[test]
fn framebuffer_writer_back_buffer_is_black() {
    let writer = FramebufferWriter::new(4, 2);
    assert_eq!(writer.back_buffer, vec![vec![0u32; 4]; 2]);
    assert_eq!(writer.column_position, 0);
}

#[test]
fn framebuffer_header_wraps_on_a_single_row() {
    let mut writer = FbWriter::new(5, 1);
    fb_print_header(&mut writer, LogLevel::Error);
    let text: Vec<u8> = writer.screen_buffer().iter().map(|c| c.unwrap().ascii_character).collect();
    // "[ FA" fill the row; "I" fills it again after a scroll; "L ] " follow from the start.
    assert_eq!(text, b"L ] I".to_vec());
    let label_color = FbColorCode::new(Rgb8(0xFF4100), Rgb8(0));
    assert_eq!(writer.screen_buffer()[0].unwrap().color_code, label_color);
    assert_eq!(writer.screen_buffer()[4].unwrap().color_code, label_color);
    assert_eq!(writer.screen_buffer()[1].unwrap().color_code, fb_default_color());
    assert_eq!(writer.column_position(), 4);
}

#[test]
fn framebuffer_writer_draws_a_glyph_column_first() {
    let mut writer = FramebufferWriter::new(4, 9);
    writer.back_buffer[3][0] = 5;
    writer.back_buffer[3][1] = 5;
    writer.back_buffer[8][1] = 7;
    writer.write_char_at(b'A', &[0b1000_0001, 0b0100_0000], 0, 1);
    assert_eq!(writer.back_buffer[0][1], 0xFFFFFF);
    assert_eq!(writer.back_buffer[7][1], 0xFFFFFF);
    assert_eq!(writer.back_buffer[1][1], 0);
    assert_eq!(writer.back_buffer[3][1], 0);
    assert_eq!(writer.back_buffer[1][2], 0xFFFFFF);
    assert_eq!(writer.back_buffer[0][2], 0);
    // Outside the glyph's cells nothing changes.
    assert_eq!(writer.back_buffer[3][0], 5);
    assert_eq!(writer.back_buffer[8][1], 7);
    assert_eq!(writer.back_buffer[0][3], 0);
    assert_eq!(writer.column_position, 0);
}

#[test]
fn framebuffer_writer_draws_nothing_for_a_line_break() {
    let mut writer = FramebufferWriter::new(2, 8);
    writer.write_char_at(b'\n', &[0xFF, 0xFF], 0, 0);
    assert_eq!(writer.back_buffer, vec![vec![0u32; 2]; 8]);
}

#[test]
fn draw_char_places_each_glyph_row_at_its_scanline() {
    let colors = FbColorCode::new(Rgb8(0xFF0000), Rgb8(0x0000FF));
    let screen_char = FbScreenChar::new(b'A', colors);
    let scanlines = draw_char(screen_char, &[0x80, 0x01], 2, 3, 1024);
    assert_eq!(scanlines.len(), 2);
    // Row 3 of cells starts at pixel row 6 with two-row glyphs; column 2 at pixel 16.
    assert_eq!(scanlines[0].0, 6 * 1024 + 16 * 4);
    assert_eq!(scanlines[0].1, vec![0xFF0000, 0xFF, 0xFF, 0xFF, 0xFF, 0xFF, 0xFF, 0xFF]);
    assert_eq!(scanlines[1].0, 7 * 1024 + 16 * 4);
    assert_eq!(scanlines[1].1, vec![0xFF, 0xFF, 0xFF, 0xFF, 0xFF, 0xFF, 0xFF, 0xFF0000]);
}
