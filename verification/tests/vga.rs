use rust_os::port::PortOp;
use rust_os::vga_buffer::{
    enable_cursor, Color, ColorCode, Writer, BUFFER_HEIGHT, BUFFER_WIDTH, SCROLLBACK_ROWS,
};

fn writer() -> Writer {
    Writer::new(ColorCode::new(Color::Yellow, Color::Black))
}

fn row(writer: &Writer, row: usize) -> String {
    let text: String = (0..BUFFER_WIDTH)
        .map(|column| char::from(writer.cell(row, column).ascii_character))
        .collect();
    text.trim_end().to_string()
}

#[test]
fn test_println_simple() {
    let mut writer = writer();
    writer.write_str("test_println_simple output\n");
    assert_eq!(row(&writer, BUFFER_HEIGHT - 2), "test_println_simple output");
}

#[test]
fn test_println_many() {
    let mut writer = writer();
    for _ in 0..200 {
        writer.write_str("test_println_many output\n");
    }
    for line in 0..BUFFER_HEIGHT - 1 {
        assert_eq!(row(&writer, line), "test_println_many output");
    }
    assert_eq!(row(&writer, BUFFER_HEIGHT - 1), "");
}

#[test]
fn test_println_output() {
    let s = "Some test string that fits on a single line";
    let mut writer = writer();
    writer.write_str(&format!("\n{}\n", s));
    for (i, c) in s.chars().enumerate() {
        let screen_char = writer.cell(BUFFER_HEIGHT - 2, i);
        assert_eq!(char::from(screen_char.ascii_character), c);
    }
}

#[test]
fn colors_share_a_byte() {
    assert_eq!(ColorCode::new(Color::Yellow, Color::Black).0, 14);
    assert_eq!(ColorCode::new(Color::White, Color::Blue).0, 0x1F);
    assert_eq!(ColorCode::new(Color::Black, Color::White).0, 0xF0);
    let mut writer = writer();
    writer.write_byte(b'x');
    assert_eq!(writer.cell(24, 0).color_code.0, 14);
}

#[test]
fn long_lines_wrap_and_odd_bytes_show_as_blocks() {
    let mut writer = writer();
    writer.write_string(&"a".repeat(81));
    assert_eq!(row(&writer, 23), "a".repeat(80));
    assert_eq!(row(&writer, 24), "a");
    writer.write_string("\t\u{e9}");
    assert_eq!(writer.cell(24, 1).ascii_character, 0xFE);
    assert_eq!(writer.cell(24, 2).ascii_character, 0xFE);
    assert_eq!(writer.cell(24, 3).ascii_character, 0xFE);
    assert_eq!(writer.column_position, 4);
}

#[test]
fn backspace_erases_one_character_of_the_line() {
    let mut writer = writer();
    writer.write_str("ab");
    writer.backspace();
    assert_eq!(row(&writer, 24), "a");
    assert_eq!(writer.cursor, 24 * 80 + 1);
    writer.backspace();
    writer.backspace();
    assert_eq!(row(&writer, 24), "");
    assert_eq!(writer.column_position, 0);
}

#[test]
fn the_cursor_follows_the_output() {
    let mut writer = writer();
    writer.write_string("abc");
    assert_eq!(writer.cursor, 0);
    writer.write_str("de");
    assert_eq!(writer.cursor, 24 * 80 + 5);
    assert_eq!(
        writer.cursor_ops(),
        [
            PortOp::Write8 { port: 0x3D4, value: 0x0F },
            PortOp::Write8 { port: 0x3D5, value: 0x85 },
            PortOp::Write8 { port: 0x3D4, value: 0x0E },
            PortOp::Write8 { port: 0x3D5, value: 0x07 },
        ]
    );
}

#[test]
fn clearing_blanks_the_screen_and_homes_the_cursor() {
    let mut writer = writer();
    writer.write_str("one\ntwo\nthree");
    writer.clear_screen();
    for line in 0..BUFFER_HEIGHT {
        assert_eq!(row(&writer, line), "");
    }
    assert_eq!(writer.cursor, 0);
    assert_eq!(writer.column_position, 0);
}

#[test]
fn the_history_can_be_paged_through() {
    let mut writer = writer();
    for i in 0..60 {
        writer.write_str(&format!("line {}\n", i));
    }
    assert_eq!(row(&writer, 23), "line 59");
    writer.scroll_page_up();
    assert_eq!(row(&writer, 24), "line 35");
    assert_eq!(row(&writer, 0), "line 11");
    writer.scroll_page_up();
    writer.scroll_page_up();
    writer.scroll_page_up();
    // The oldest rows are the blank ones that the screen began with.
    assert_eq!(row(&writer, 0), "");
    assert_eq!(row(&writer, 24), "line 0");
    writer.scroll_page_down();
    writer.scroll_page_down();
    writer.scroll_page_down();
    assert_eq!(row(&writer, 23), "line 59");
    writer.scroll_page_up();
    writer.write_str("!"); // output goes back to the live view
    assert_eq!(row(&writer, 24), "!");
    writer.scroll_page_up();
    writer.scroll_to_live();
    assert_eq!(row(&writer, 24), "!");
}

#[test]
fn paging_up_and_down_returns() {
    let mut writer = writer();
    for i in 0..60 {
        writer.write_str(&format!("line {}\n", i));
    }
    let before = writer;
    writer.scroll_page_up();
    assert!(writer != before);
    writer.scroll_page_down();
    assert!(writer == before);
    let mut paged = before;
    paged.scroll_page_up();
    paged.write_byte(b'!');
    writer.write_byte(b'!');
    assert!(paged == writer);
}

#[test]
fn the_history_keeps_the_last_200_rows() {
    let mut writer = writer();
    for i in 0..1000 {
        writer.write_str(&format!("line {}\n", i));
    }
    assert_eq!(writer.kept, SCROLLBACK_ROWS);
    for _ in 0..20 {
        writer.scroll_page_up();
    }
    // The live screen holds 976 to 999 above a blank row.
    assert_eq!(row(&writer, 0), "line 776");
    assert_eq!(row(&writer, 24), "line 800");
}

#[test]
fn the_cursor_is_made_an_underline() {
    let mut setup = enable_cursor();
    let mut ops = Vec::new();
    while let Some(op) = setup.op() {
        ops.push(op);
        setup.step(if ops.len() == 2 { 0xEF } else { 0xBF });
    }
    assert_eq!(
        ops,
        [
            PortOp::Write8 { port: 0x3D4, value: 0x0A },
            PortOp::Read8 { port: 0x3D5 },
            PortOp::Write8 { port: 0x3D5, value: 0xC0 | 14 },
            PortOp::Write8 { port: 0x3D4, value: 0x0B },
            PortOp::Read8 { port: 0x3D5 },
            PortOp::Write8 { port: 0x3D5, value: 0xA0 | 15 },
        ]
    );
}
