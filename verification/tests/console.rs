use my_os::framebuffer::{FrameInfo, PixelKind, Rgba, Writer, TOTAL};

const W: usize = 32;
const H: usize = 24;
const BPP: usize = 4;
const COLOR: u32 = 0xF2F2F2FF;

fn info(format: PixelKind) -> FrameInfo {
    FrameInfo { byte_len: W * H * BPP, width: W, height: H, pixel_format: format, bytes_per_pixel: BPP, stride: W }
}

fn writer() -> Writer {
    Writer::new(vec![0u8; W * H * BPP], info(PixelKind::Rgb), COLOR)
}

fn pixel(w: &Writer, x: usize, y: usize) -> [u8; 3] {
    let i = (y * W + x) * BPP;
    let b = w.frame_buffer();
    [b[i], b[i + 1], b[i + 2]]
}

fn lit(w: &Writer, x: usize, y: usize) -> bool {
    pixel(w, x, y) != [0, 0, 0]
}

/// Bitmap of 'A' in the Basic Latin table.
const GLYPH_A: [u8; 8] = [0x0C, 0x1E, 0x33, 0x33, 0x3F, 0x33, 0x33, 0x00];

#[test]
fn test_rgba_new() {
    let rgba = Rgba::new(0xFF00FF00);
    assert_eq!((rgba.red(), rgba.green(), rgba.blue(), rgba.alpha()), (0xFF, 0x00, 0xFF, 0x00));
}

#[test]
fn test_rgba_new_zero() {
    let rgba = Rgba::new(0x00000000);
    assert_eq!((rgba.red(), rgba.green(), rgba.blue(), rgba.alpha()), (0, 0, 0, 0));
}

#[test]
fn test_rgba_new_max() {
    let rgba = Rgba::new(0xFFFFFFFF);
    assert_eq!((rgba.red(), rgba.green(), rgba.blue(), rgba.alpha()), (0xFF, 0xFF, 0xFF, 0xFF));
}

#[test]
fn test_rgba_copy() {
    let a = Rgba::new(0xAABBCCDD);
    let b = a;
    let c = a;
    assert_eq!(b, c);
    assert_eq!((c.red(), c.green(), c.blue(), c.alpha()), (0xAA, 0xBB, 0xCC, 0xDD));
}

#[test]
fn test_rgba_clone() {
    let a = Rgba::new(0x12345678);
    let b = a.clone();
    assert_eq!(a, b);
    assert_eq!(b.red(), 0x12);
}

#[test]
fn new_writer_starts_top_left() {
    let w = writer();
    assert_eq!((w.row(), w.column()), (0, 0));
    assert!(!w.cursor_visible());
    assert!(w.frame_buffer().iter().all(|&b| b == 0));
}

#[test]
fn write_char_draws_the_font_glyph_and_advances() {
    let mut w = writer();
    w.write_char('A');
    assert_eq!((w.row(), w.column()), (0, TOTAL));
    for y in 0..8 {
        for x in 0..8 {
            let expected = GLYPH_A[y] & (1 << x) != 0;
            assert_eq!(lit(&w, x, y), expected, "pixel ({}, {})", x, y);
        }
    }
    assert_eq!(pixel(&w, 2, 0), [0xF2, 0xF2, 0xF2]);
    // the cursor, two pixels wide, is drawn in the next cell
    for y in 0..8 {
        assert!(lit(&w, 8, y) && lit(&w, 9, y));
        assert!(!lit(&w, 10, y));
    }
}

#[test]
fn bgr_framebuffer_swaps_red_and_blue() {
    let mut w = Writer::new(vec![0u8; W * H * BPP], info(PixelKind::Bgr), 0x11223344);
    w.toggle_cursor();
    let i = 0;
    let b = w.frame_buffer();
    assert_eq!([b[i], b[i + 1], b[i + 2], b[i + 3]], [0x33, 0x22, 0x11, 0]);
}

#[test]
fn unsupported_pixel_format_is_not_drawn() {
    let mut w = Writer::new(vec![0u8; W * H * BPP], info(PixelKind::Other), COLOR);
    w.write_char('A');
    assert_eq!(w.column(), TOTAL);
    assert!(w.frame_buffer().iter().all(|&b| b == 0));
}

#[test]
fn newline_moves_to_next_text_row() {
    let mut w = writer();
    w.write_char('A');
    w.write_char('\n');
    assert_eq!((w.row(), w.column()), (TOTAL, 0));
    // the old cursor cell was cleared
    assert!(!lit(&w, 8, 0));
    assert!(lit(&w, 0, 8) && lit(&w, 1, 8));
}

#[test]
fn row_wraps_at_the_right_edge() {
    let mut w = writer();
    for _ in 0..4 {
        w.write_char('A');
    }
    assert_eq!((w.row(), w.column()), (TOTAL, 0));
}

#[test]
fn screen_scrolls_when_full() {
    let mut w = writer();
    w.write_char('A');
    w.write_char('\n');
    w.write_char('\n');
    assert_eq!(w.row(), 2 * TOTAL);
    // one more newline scrolls everything up one text row
    w.write_char('\n');
    assert_eq!((w.row(), w.column()), (2 * TOTAL, 0));
    for y in 0..8 {
        for x in 0..8 {
            assert!(!lit(&w, x, y), "glyph still in the top row after scrolling");
        }
    }
}

#[test]
fn backspace_erases_the_previous_cell() {
    let mut w = writer();
    w.write_char('\n');
    w.write_char('A');
    w.write_char('B');
    assert_eq!((w.row(), w.column()), (TOTAL, 2 * TOTAL));
    assert!(w.can_write_char('\u{8}'));
    w.write_char('\u{8}');
    // 'B' is erased and the cursor steps back into its cell, on the same row
    assert_eq!((w.row(), w.column()), (TOTAL, TOTAL));
    for y in 8..16 {
        assert!(lit(&w, 8, y) && lit(&w, 9, y));
        for x in 10..24 {
            assert!(!lit(&w, x, y));
        }
    }
    // 'A' stays
    assert!(lit(&w, 2, 8));
}

#[test]
fn backspace_at_row_start_goes_to_the_row_above() {
    let mut w = writer();
    w.write_char('A');
    w.write_char('\n');
    assert_eq!((w.row(), w.column()), (TOTAL, 0));
    w.write_char('\u{8}');
    assert_eq!((w.row(), w.column()), (0, W - TOTAL));
    // the old cursor is cleared, the last cell of the row above holds the cursor
    assert!(!lit(&w, 0, 8) && !lit(&w, 1, 8));
    assert!(lit(&w, W - TOTAL, 0) && lit(&w, W - TOTAL + 1, 7));
    assert!(lit(&w, 2, 0));
}

#[test]
fn backspace_in_top_left_cell_does_nothing_but_redraw_cursor() {
    let mut w = writer();
    w.write_char('\u{8}');
    assert_eq!((w.row(), w.column()), (0, 0));
    assert!(lit(&w, 0, 0) && lit(&w, 1, 0) && !lit(&w, 2, 0));
}

#[test]
fn backspace_on_the_top_row() {
    let mut w = writer();
    w.write_char('A');
    assert!(w.can_write_char('\u{8}'));
    w.write_char('\u{8}');
    assert_eq!((w.row(), w.column()), (0, 0));
    // 'A' is erased, only the cursor is left
    for y in 0..8 {
        for x in 2..16 {
            assert!(!lit(&w, x, y));
        }
    }
    assert!(lit(&w, 0, 0) && lit(&w, 1, 7));
}

#[test]
fn write_string_writes_each_character() {
    let mut w = writer();
    w.write_string("AA\nA");
    assert_eq!((w.row(), w.column()), (TOTAL, TOTAL));
    assert!(lit(&w, 2, 0) && lit(&w, 10, 0) && lit(&w, 2, 8));
}

#[test]
fn toggle_cursor_shows_and_hides() {
    let mut w = writer();
    w.toggle_cursor();
    assert!(w.cursor_visible());
    assert!(lit(&w, 0, 0) && lit(&w, 1, 7) && !lit(&w, 2, 0));
    w.toggle_cursor();
    assert!(!w.cursor_visible());
    assert!(w.frame_buffer().iter().all(|&b| b == 0));
}

#[test]
fn clear_screen_zeroes_the_buffer() {
    let mut w = writer();
    w.write_string("AAAA");
    w.clear_screen();
    assert!(w.frame_buffer().iter().all(|&b| b == 0));
    assert_eq!(w.frame_buffer().len(), W * H * BPP);
}

fn narrow_writer() -> Writer {
    // 20 pixels wide: rows hold two whole cells and a partial one
    let info = FrameInfo {
        byte_len: 20 * 16 * BPP,
        width: 20,
        height: 16,
        pixel_format: PixelKind::Rgb,
        bytes_per_pixel: BPP,
        stride: 20,
    };
    assert!(info.fits_console());
    Writer::new(vec![0u8; 20 * 16 * BPP], info, COLOR)
}

#[test]
fn width_not_a_multiple_of_the_cell() {
    let mut w = narrow_writer();
    w.write_char('A');
    w.write_char('A');
    assert_eq!((w.row(), w.column()), (0, 16));
    // a third cell does not fit the row: the character goes on the next text row
    w.write_char('A');
    assert_eq!((w.row(), w.column()), (TOTAL, TOTAL));
    let b = w.frame_buffer();
    let i = (8 * 20 + 2) * BPP;
    assert_eq!([b[i], b[i + 1], b[i + 2]], [0xF2, 0xF2, 0xF2]);
}

#[test]
fn cursor_cell_past_the_end_of_the_buffer_cannot_be_written() {
    let mut w = narrow_writer();
    w.write_string("AA\n");
    w.write_char('A');
    w.write_char('A');
    assert_eq!((w.row(), w.column()), (TOTAL, 16));
    // clearing the cursor's cell would reach past the last byte of the buffer
    assert!(!w.can_write_char('A'));
    // the cursor itself, two pixels wide, still fits
    assert!(w.can_toggle_cursor());
}

#[test]
fn geometry_checks() {
    let good = info(PixelKind::Rgb);
    assert!(good.fits_console());
    let short = FrameInfo { byte_len: 10, ..good };
    assert!(!short.fits_console());
    let thin = FrameInfo { bytes_per_pixel: 2, byte_len: W * H * 2, ..good };
    assert!(!thin.fits_console());
    let grey = FrameInfo { bytes_per_pixel: 1, byte_len: W * H, pixel_format: PixelKind::Other, ..good };
    assert!(grey.fits_console());
}

#[test]
fn cursor_stays_on_the_cell_grid() {
    let mut w = writer();
    let text = "Hello,\nworld! \u{8}\u{8}scrolling text that wraps and scrolls\n\n\n\u{8}x";
    for c in text.chars() {
        assert!(w.can_write_char(c), "cannot write {:?}", c);
        w.write_char(c);
        assert_eq!(w.row() % TOTAL, 0);
        assert_eq!(w.column() % TOTAL, 0);
        assert!(w.row() + TOTAL <= H);
        assert!(w.column() + TOTAL <= W);
    }
}
