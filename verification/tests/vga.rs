//! Screen writer behaviour, interrupt numbering, and exit codes.

use nuclea_r_os::interrupts::{InterruptIndex, PIC_1_OFFSET, PIC_2_OFFSET};
use nuclea_r_os::qemu::QEMUExitCode;
use nuclea_r_os::vga::{Color, ColorCode, Writer, BUFFER_HEIGHT, BUFFER_WIDTH};

fn white_on_black() -> ColorCode {
    ColorCode { foreground_color: Color::White, background_color: Color::Black }
}

#[test]
fn println_output_lands_on_the_grid() {
    let mut w = Writer::new(white_on_black());
    let s = "Test string that fits on a single line.";
    let row = w.cursor_position.1;
    w.write_string(s);
    w.write_byte(b'\n');
    for (i, chr) in s.bytes().enumerate() {
        let cell = w.char_at(row, i);
        assert_eq!(cell.ascii_character, chr);
    }
    assert_eq!(w.cursor_position, (0, row + 1));
}

#[test]
fn long_line_wraps_at_the_right_edge() {
    let mut w = Writer::new(white_on_black());
    for _ in 0..BUFFER_WIDTH {
        w.write_byte(b'x');
    }
    assert_eq!(w.cursor_position.0, BUFFER_WIDTH);
    w.write_byte(b'y');
    assert_eq!(w.cursor_position, (1, 1));
    assert_eq!(w.char_at(1, 0).ascii_character, b'y');
}

#[test]
fn overflowing_the_screen_scrolls_it() {
    let mut w = Writer::new(white_on_black());
    w.write_string("first\n");
    for _ in 0..(BUFFER_HEIGHT - 1) {
        w.write_string("filler\n");
    }
    // "first" has scrolled off; "filler" moved up one row each time.
    assert_eq!(w.cursor_position, (0, BUFFER_HEIGHT - 1));
    assert_eq!(w.char_at(0, 0).ascii_character, b'f');
    assert_eq!(w.char_at(0, 1).ascii_character, b'i');
    // The last row was cleared to the background.
    assert_eq!(w.char_at(BUFFER_HEIGHT - 1, 0).ascii_character, 0);
}

#[test]
fn tab_prints_four_spaces() {
    let mut w = Writer::new(white_on_black());
    w.write_byte(b'\t');
    assert_eq!(w.cursor_position, (4, 0));
    for col in 0..4 {
        assert_eq!(w.char_at(0, col).ascii_character, b' ');
    }
}

#[test]
fn unprintable_bytes_become_the_replacement_glyph() {
    let mut w = Writer::new(white_on_black());
    w.write_string("\u{80}");
    assert_eq!(w.char_at(0, 0).ascii_character, 0xfe);
    assert_eq!(w.char_at(0, 1).ascii_character, 0xfe);
}

#[test]
fn color_codes_pack_background_high() {
    let cc = white_on_black();
    assert_eq!(cc.get_value(None, None), 0x0f);
    assert_eq!(cc.get_value(Some(Color::Yellow), None), 0x0e);
    assert_eq!(cc.get_value(None, Some(Color::Blue)), 0x1f);
    let inverted = ColorCode { foreground_color: Color::Black, background_color: Color::White };
    assert_eq!(inverted.get_value(None, None), 0xf0);
}

#[test]
fn interrupt_vectors_follow_the_remapped_controllers() {
    assert_eq!(PIC_1_OFFSET, 32);
    assert_eq!(PIC_2_OFFSET, 40);
    assert_eq!(InterruptIndex::Timer.as_u8(), 32);
    assert_eq!(InterruptIndex::Keyboard.as_u8(), 33);
    assert_eq!(InterruptIndex::Timer.as_usize(), 32);
    assert_eq!(InterruptIndex::Keyboard.as_usize(), 33);
}

#[test]
fn test_grounding_assertion() {
    // Ensure all the laws of the universe are still in line.
    assert_eq!(1, 1);
}

#[test]
fn exit_codes_match_the_device_protocol() {
    assert_eq!(QEMUExitCode::Success.as_u32(), 0x10);
    assert_eq!(QEMUExitCode::Failed.as_u32(), 0x11);
    assert_ne!(QEMUExitCode::Success, QEMUExitCode::Failed);
}
