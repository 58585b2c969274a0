use clikit::chars::CharacterTable;
use clikit::colors::{ColorScheme, Colors};
use clikit::printer::{
    compute_panel_count, default_panel_count, effective_panel_count, print_data, print_include,
    read_input, resolve_skip, BorderStyle, DisplayBase, Endianness, PanelSetting, PrinterConfig,
};

fn config() -> PrinterConfig {
    PrinterConfig {
        show_position: true,
        show_characters: true,
        border: BorderStyle::NoBorder,
        squeeze: false,
        colors: Colors::plain(),
        use_color: false,
        color_scheme: ColorScheme::Default,
        character_table: CharacterTable::Default,
        display_offset: 0,
        group_size: 1,
        endianness: Endianness::Big,
        base: DisplayBase::Hexadecimal,
        bytes_per_panel: 8,
        panel_count: 2,
        gradient: Vec::new(),
    }
}

fn pad(s: &str, w: usize) -> String {
    let mut out = s.to_string();
    while out.chars().count() < w {
        out.push(' ');
    }
    out
}

#[test]
fn plain_line_with_characters() {
    let cfg = config();
    let out = print_data(b"ABC", &cfg);
    let mut line = pad(" 00000000  41 42 43", 62);
    line.push_str("ABC");
    let expected = format!("{}\n", pad(&line, 80));
    assert_eq!(out, expected);
}

#[test]
fn repeated_lines_are_squeezed() {
    let mut cfg = config();
    cfg.squeeze = true;
    let data = vec![0u8; 48];
    let out = print_data(&data, &cfg);
    let zeros = "00 00 00 00 00 00 00 00";
    let mut first = pad(&format!(" 00000000  {zeros}   {zeros}"), 62);
    first.push_str("\u{22c4}\u{22c4}\u{22c4}\u{22c4}\u{22c4}\u{22c4}\u{22c4}\u{22c4} ");
    first.push_str("\u{22c4}\u{22c4}\u{22c4}\u{22c4}\u{22c4}\u{22c4}\u{22c4}\u{22c4}");
    let expected = format!(
        "{}\n{}\n{}\n",
        pad(&first, 80),
        pad(" *", 80),
        pad(" 00000030", 80)
    );
    assert_eq!(out, expected);
}

#[test]
fn squeezed_run_between_lines() {
    let mut cfg = config();
    cfg.squeeze = true;
    cfg.show_characters = false;
    cfg.panel_count = 1;
    cfg.bytes_per_panel = 2;
    let out = print_data(&[1, 1, 1, 1, 2, 2], &cfg);
    let expected = format!(
        "{}\n{}\n{}\n",
        pad(" 00000000  01 01", 18),
        pad(" *", 18),
        pad(" 00000004  02 02", 18)
    );
    assert_eq!(out, expected);
}

#[test]
fn wide_groups_follow_byte_order() {
    let mut cfg = config();
    cfg.show_position = false;
    cfg.show_characters = false;
    cfg.group_size = 2;
    cfg.bytes_per_panel = 4;
    cfg.panel_count = 1;
    cfg.endianness = Endianness::Little;
    assert_eq!(print_data(&[1, 2, 3], &cfg), "  0201 0003    \n");
    cfg.endianness = Endianness::Big;
    assert_eq!(print_data(&[1, 2, 3], &cfg), "  0102 0003    \n");
}

#[test]
fn other_bases() {
    let mut cfg = config();
    cfg.show_position = false;
    cfg.show_characters = false;
    cfg.bytes_per_panel = 2;
    cfg.panel_count = 1;
    cfg.base = DisplayBase::Octal;
    assert_eq!(print_data(&[8, 255], &cfg), "  010 377  \n");
    cfg.base = DisplayBase::Decimal;
    assert_eq!(print_data(&[8, 255], &cfg), "  008 255  \n");
    cfg.base = DisplayBase::Binary;
    assert_eq!(print_data(&[5], &cfg), format!("{}\n", pad("  00000101", 22)));
}

#[test]
fn bordered_layout() {
    let mut cfg = config();
    cfg.border = BorderStyle::Ascii;
    cfg.panel_count = 1;
    let out = print_data(b"AB", &cfg);
    let frame = format!("+{}+{}+{}+", "-".repeat(8), "-".repeat(25), "-".repeat(8));
    let row = format!("|00000000|{}|{}|", pad(" 41 42 ", 25), pad("AB", 8));
    assert_eq!(out, format!("{frame}\n{row}\n{frame}\n"));
    assert_eq!(print_data(b"", &cfg), "");
}

#[test]
fn bordered_unicode_squeeze() {
    let mut cfg = config();
    cfg.border = BorderStyle::Unicode;
    cfg.panel_count = 1;
    cfg.bytes_per_panel = 1;
    cfg.show_characters = false;
    cfg.squeeze = true;
    let out = print_data(&[7, 7, 7], &cfg);
    let top = format!("\u{250c}{}\u{252c}{}\u{2510}", "\u{2500}".repeat(8), "\u{2500}".repeat(4));
    let bottom = format!("\u{2514}{}\u{2534}{}\u{2518}", "\u{2500}".repeat(8), "\u{2500}".repeat(4));
    let v = '\u{2502}';
    let expected = format!(
        "{top}\n{v}00000000{v} 07 {v}\n{v}*       {v}    {v}\n{v}00000003{v}    {v}\n{bottom}\n"
    );
    assert_eq!(out, expected);
}

#[test]
fn colored_bytes() {
    let mut cfg = config();
    cfg.colors = Colors::default();
    cfg.use_color = true;
    cfg.show_characters = false;
    let out = print_data(&[0x41], &cfg);
    assert!(out.starts_with("\x1b[90m 00000000\x1b[39m  \x1b[36m41\x1b[39m"));
    cfg.color_scheme = ColorScheme::Gradient;
    cfg.gradient = (0..256).map(|i| format!("<{i}>")).collect();
    let out = print_data(&[0x90], &cfg);
    assert!(out.contains("<144>90\x1b[39m"));
}

#[test]
fn include_array() {
    let data: Vec<u8> = (0..13).collect();
    let out = print_include("dir/a.b", &data);
    let expected = "unsigned char dir_a_b[] = {\n  0x00, 0x01, 0x02, 0x03, 0x04, 0x05, 0x06, 0x07, 0x08, 0x09, 0x0a, 0x0b,\n  0x0c\n};\nunsigned int dir_a_b_len = 13;\n";
    assert_eq!(out, expected);
}

#[test]
fn skipping_and_reading() {
    assert_eq!(resolve_skip(3, 10), 3);
    assert_eq!(resolve_skip(-2, 10), 8);
    assert_eq!(resolve_skip(-20, 10), 0);
    assert_eq!(read_input(b"hello", 1, Some(3), None), b"ell".to_vec());
    assert_eq!(read_input(b"hello", 9, None, None), Vec::<u8>::new());
    assert_eq!(read_input(b"hello", 2, None, Some(1)), b"ello".to_vec());
}

#[test]
fn panel_counts() {
    assert_eq!(compute_panel_count(PanelSetting::Fixed(0), None, 8, true, true), 1);
    assert_eq!(compute_panel_count(PanelSetting::Fixed(3), None, 8, true, true), 3);
    assert_eq!(compute_panel_count(PanelSetting::Auto, Some(80), 8, true, true), 1);
    assert_eq!(compute_panel_count(PanelSetting::Auto, Some(200), 8, true, true), 4);
    assert_eq!(default_panel_count(Some(10)), 2);
    let mut cfg = config();
    cfg.panel_count = 3;
    assert_eq!(effective_panel_count(&cfg, Some(80)), 3);
    cfg.base = DisplayBase::Binary;
    assert_eq!(effective_panel_count(&cfg, Some(80)), 1);
    assert_eq!(effective_panel_count(&cfg, Some(250)), 2);
    assert_eq!(cfg.bytes_per_line(), 24);
}

#[test]
fn squeezing_distinct_lines_changes_nothing() {
    let mut cfg = config();
    let data: Vec<u8> = (0..40).collect();
    let plain = print_data(&data, &cfg);
    cfg.squeeze = true;
    assert_eq!(print_data(&data, &cfg), plain);
}

#[test]
fn bordered_lines_share_one_width() {
    let mut cfg = config();
    cfg.border = BorderStyle::Unicode;
    cfg.squeeze = true;
    let mut data = vec![0u8; 64];
    data.extend_from_slice(b"tail bytes");
    let out = print_data(&data, &cfg);
    let widths: Vec<usize> = out.lines().map(|l| l.chars().count()).collect();
    assert!(widths.len() >= 4);
    assert!(widths.iter().all(|w| *w == widths[0]));
}

#[test]
fn squeezing_ignores_offsets() {
    let mut cfg = config();
    cfg.squeeze = true;
    let out = print_data(&[9u8; 48], &cfg);
    let lines: Vec<&str> = out.lines().collect();
    assert_eq!(lines.len(), 3);
    assert!(lines[0].starts_with(" 00000000  09 09"));
    assert_eq!(lines[1].trim_end(), " *");
    assert!(lines[2].starts_with(" 00000030"));
}

#[test]
fn one_line_per_started_run_of_bytes() {
    let mut cfg = config();
    let data: Vec<u8> = (0..40).collect();
    assert_eq!(print_data(&data, &cfg).lines().count(), 3);
    assert_eq!(print_data(&data[..32], &cfg).lines().count(), 2);
    cfg.border = BorderStyle::Ascii;
    assert_eq!(print_data(&data, &cfg).lines().count(), 5);
}
