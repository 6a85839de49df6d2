use buddy_kernel::drivers::framebuffer::{Framebuffer, FramebufferInfo, RGB};
use buddy_kernel::terminal::ansi::{AnsiColor, AnsiCommand, AnsiError, AnsiHandler, ParserResult};
use buddy_kernel::terminal::tty::{DrawRequest, Pos, Style, Terminal, TextCell};

fn chars(s: &str) -> Vec<char> {
    s.chars().collect()
}

fn parse(h: &mut AnsiHandler, s: &str) -> ParserResult {
    let input = chars(s);
    h.continue_parse(&input, 0).0
}

fn terminal_30_rows() -> Terminal {
    // 78 columns of 10 px and 30 rows of 20 px inside 20 px margins
    Terminal::new(820, 640, 10, 20)
}

#[test]
fn newline_and_sgr_colors() {
    let mut t = terminal_30_rows();
    t.write_str("hello\n");
    assert_eq!(t.cursor(), Pos { line: 1, column: 0 });
    t.write_str("\x1b[31m");
    assert_eq!(t.style().foreground, AnsiColor::ColorCode(1));
    t.write_str("err\x1b[0m");
    let cols = t.width();
    for i in 0..3 {
        let cell = t.buffer().cell(cols + i).unwrap();
        assert_eq!(cell.style.foreground, AnsiColor::ColorCode(1));
    }
    assert_eq!(t.style().foreground, AnsiColor::DefaultForeground);
    assert_eq!(t.cursor(), Pos { line: 1, column: 3 });
}

#[test]
fn csi_sequences_decode() {
    let mut h = AnsiHandler::new();
    assert_eq!(
        parse(&mut h, "\x1b[2;3H"),
        ParserResult::Valid(AnsiCommand::CursorMoveAbsolute { line: 2, column: 3 })
    );
    let mut h = AnsiHandler::new();
    assert_eq!(
        parse(&mut h, "\x1b[38;2;10;20;30m"),
        ParserResult::Valid(AnsiCommand::SetForeground(AnsiColor::Rgb(10, 20, 30)))
    );
    let mut h = AnsiHandler::new();
    assert_eq!(parse(&mut h, "\x1b["), ParserResult::Incomplete);
    assert_eq!(
        parse(&mut h, "31m"),
        ParserResult::Valid(AnsiCommand::SetForeground(AnsiColor::ColorCode(1)))
    );
}

#[test]
fn thirty_one_lines_scroll_once() {
    let mut t = terminal_30_rows();
    assert_eq!(t.height(), 30);
    t.take_draw_requests();
    for _ in 0..31 {
        t.write_str("row\n");
    }
    assert_eq!(t.scroll(), 1);
    let scrolls: Vec<DrawRequest> = t
        .take_draw_requests()
        .into_iter()
        .filter(|d| matches!(d, DrawRequest::Scroll { .. }))
        .collect();
    assert_eq!(scrolls, vec![DrawRequest::Scroll { delta: 1, clear: false }]);
}

#[test]
fn sgr_256_cube_and_gray() {
    let mut h = AnsiHandler::new();
    assert_eq!(
        parse(&mut h, "\x1b[48;5;196m"),
        ParserResult::Valid(AnsiCommand::SetBackground(AnsiColor::Rgb(255, 0, 0)))
    );
    let mut h = AnsiHandler::new();
    assert_eq!(
        parse(&mut h, "\x1b[38;5;244m"),
        ParserResult::Valid(AnsiCommand::SetForeground(AnsiColor::Rgb(128, 128, 128)))
    );
    let mut h = AnsiHandler::new();
    assert_eq!(
        parse(&mut h, "\x1b[38;5;9m"),
        ParserResult::Valid(AnsiCommand::SetForeground(AnsiColor::ColorCode(9)))
    );
}

#[test]
fn decoder_errors() {
    let mut h = AnsiHandler::new();
    assert_eq!(parse(&mut h, "x"), ParserResult::Error(AnsiError::Unsupported));
    let mut h = AnsiHandler::new();
    assert_eq!(parse(&mut h, "\x1b[1;2;3;4;5;6m"), ParserResult::Error(AnsiError::Unsupported));
    let mut h = AnsiHandler::new();
    assert_eq!(parse(&mut h, "\x1b[12345678901234567890m"), ParserResult::Error(AnsiError::BufferOverflow));
    let mut h = AnsiHandler::new();
    assert_eq!(parse(&mut h, "\x1b[38;2;300;0;0m"), ParserResult::Error(AnsiError::InvalidParameters));
    let mut h = AnsiHandler::new();
    assert_eq!(parse(&mut h, "\x1b[1 m"), ParserResult::Error(AnsiError::Unsupported));
    let mut h = AnsiHandler::new();
    assert_eq!(parse(&mut h, "\x1b[5z"), ParserResult::Error(AnsiError::Unsupported));
}

#[test]
fn decoder_other_commands() {
    let cases = [
        ("\x1b[2J", AnsiCommand::EraseDisplay { mode: buddy_kernel::terminal::ansi::EraseMode::All, preserve_offscreen: true }),
        ("\x1b[K", AnsiCommand::EraseLine(buddy_kernel::terminal::ansi::EraseMode::AfterCursor)),
        ("\x1b[3A", AnsiCommand::CursorMoveRelative { line: -3, column: 0 }),
        ("\x1b[4C", AnsiCommand::CursorMoveRelative { line: 0, column: 4 }),
        ("\x1b[7G", AnsiCommand::CursorMoveColumnAbsolute(7)),
        ("\x1b[S", AnsiCommand::ScrollRelative(-1)),
        ("\x1b[2T", AnsiCommand::ScrollRelative(2)),
        ("\x1b[;5f", AnsiCommand::CursorMoveAbsolute { line: 0, column: 5 }),
        ("\x1b[m", AnsiCommand::ResetGraphicRendition),
        ("\x1b[94m", AnsiCommand::SetForeground(AnsiColor::ColorCode(12))),
    ];
    for (input, expected) in cases {
        let mut h = AnsiHandler::new();
        assert_eq!(parse(&mut h, input), ParserResult::Valid(expected), "{input:?}");
    }
}

#[test]
fn wrapping_at_line_end() {
    let mut t = Terminal::new(60, 100, 10, 20);
    assert_eq!(t.width(), 2);
    t.write_str("abc");
    assert_eq!(t.cursor(), Pos { line: 1, column: 1 });
    t.write_str("\t");
    assert_eq!(t.cursor(), Pos { line: 3, column: 1 });
}

#[test]
fn cursor_moves_are_clamped() {
    let mut t = terminal_30_rows();
    t.write_str("abcdef\nxy");
    t.write_str("\x1b[1;100H");
    assert_eq!(t.cursor(), Pos { line: 1, column: 2 });
    t.write_str("\x1b[5A");
    assert_eq!(t.cursor(), Pos { line: 0, column: 2 });
    t.write_str("\x1b[9C");
    assert_eq!(t.cursor(), Pos { line: 0, column: 6 });
}

#[test]
fn glyphs_blend_cell_colors() {
    let t = terminal_30_rows();
    let style = Style { foreground: AnsiColor::Rgb(255, 255, 255), background: AnsiColor::Rgb(0, 0, 0) };
    let pixels = t.glyph_pixels(TextCell { style, content: 'A' }).unwrap();
    assert_eq!(pixels.len(), 20);
    let all: Vec<u32> = pixels.iter().flatten().map(|c| c.value()).collect();
    assert!(all.iter().any(|&v| v == 0xffffff));
    assert!(all.iter().any(|&v| v == 0));
    // a blank has no ink
    let blank = t.glyph_pixels(TextCell { style, content: ' ' }).unwrap();
    assert!(blank.iter().flatten().all(|c| c.value() == 0));
    assert!(t.glyph_pixels(TextCell { style, content: '\u{4e00}' }).is_none());
}

#[test]
fn line_draw_paints_glyphs_in_the_strip() {
    let mut t = Terminal::new(200, 100, 10, 20);
    t.write_str("\x1b[38;2;255;255;255m\x1b[48;2;0;0;0mA");
    let mut fb = Framebuffer::new(FramebufferInfo { pitch: 200, width: 200, height: 100 });
    fb.fill(RGB(0x123456));
    t.line_draw(&mut fb, 0);
    let px = fb.pixels_slice();
    let strip: Vec<u32> = px[20 * 200..40 * 200].to_vec();
    assert!(strip.iter().any(|&v| v == 0xffffff));
    assert!(strip.iter().any(|&v| v == t.theme().background.value()));
    assert!(px[..20 * 200].iter().all(|&v| v == 0x123456));
    assert!(px[40 * 200..].iter().all(|&v| v == 0x123456));
    t.full_draw(&mut fb);
    assert!(fb.pixels_slice()[..20 * 200].iter().all(|&v| v == t.theme().background.value()));
}

#[test]
fn scroll_draw_moves_rows_up() {
    let t = Terminal::new(200, 100, 10, 20);
    let mut fb = Framebuffer::new(FramebufferInfo { pitch: 4, width: 4, height: 100 });
    let rows: Vec<u32> = (0..100u32).flat_map(|y| [y; 4]).collect();
    fb.update_from_slice(&rows);
    t.scroll_draw(&mut fb, 1, true);
    let px = fb.pixels_slice();
    // rows 20..60 now hold what rows 40..80 held; rows 60..80 are cleared; margins untouched
    assert_eq!(px[20 * 4], 40);
    assert_eq!(px[59 * 4 + 3], 79);
    assert_eq!(px[60 * 4], t.theme().background.value());
    assert_eq!(px[79 * 4], t.theme().background.value());
    assert_eq!(px[10 * 4], 10);
    assert_eq!(px[85 * 4], 85);
}
