use clikit::args::GroupSizeArg;
use clikit::chars;
use clikit::charset;
use clikit::colors::{ansi_color, parse_color_spec, parse_color_spec_checked, ColorScheme, ColorWhen, Colors};
use clikit::config::{BorderStyle, ColorMode, Config};

#[test]
fn group_sizes() {
    assert_eq!(GroupSizeArg::One.as_usize(), 1);
    assert_eq!(GroupSizeArg::Four.as_usize(), 4);
    assert_eq!(GroupSizeArg::Eight.as_usize(), 8);
}

#[test]
fn character_tables() {
    assert_eq!(chars::CharacterTable::Default.map(0), '\u{22c4}');
    assert_eq!(chars::CharacterTable::Default.map(b'a'), 'a');
    assert_eq!(chars::CharacterTable::Default.map(0x0a), '_');
    assert_eq!(chars::CharacterTable::Default.map(0x01), '\u{2022}');
    assert_eq!(chars::CharacterTable::Default.map(0x80), '\u{00d7}');
    assert_eq!(chars::CharacterTable::Ascii.map(0x80), '.');
    assert_eq!(chars::CharacterTable::Codepage437.map(0x80), '\u{00c7}');
    assert_eq!(chars::CharacterTable::Braille.map(0x01), '\u{2801}');
    assert_eq!(chars::CharacterTable::Codepage1047.map(0xc1), 'A');
    assert_eq!(chars::CharacterTable::Codepage1047.map(0x81), 'I');
}

#[test]
fn charset_tables() {
    assert_eq!(charset::CharacterTable::Default.map_byte(0x0b), '_');
    assert_eq!(charset::CharacterTable::Ascii.map_byte(b' '), ' ');
    assert_eq!(charset::CharacterTable::Codepage1047.map_byte(0xc1), 'J');
    assert_eq!(charset::CharacterTable::Codepage1047.map_byte(0x40), ' ');
    assert_eq!(charset::CharacterTable::Codepage1047.map_byte(0x00), '.');
    assert_eq!(charset::CharacterTable::Codepage437.map_byte(0xff), '\u{00a0}');
    assert_eq!(charset::CharacterTable::Braille.map_byte(0x80), '\u{2880}');
}

#[test]
fn colors() {
    assert!(ColorWhen::Always.use_color(false));
    assert!(!ColorWhen::Auto.use_color(false));
    assert!(ColorWhen::Auto.use_color(true));
    assert!(!ColorWhen::Never.use_color(true));
    assert_eq!(ansi_color("bright black"), "\x1b[90m");
    assert_eq!(ansi_color(" Cyan "), "\x1b[36m");
    assert_eq!(ansi_color("nonsense"), "\x1b[37m");
    assert_eq!(parse_color_spec("#ff0080"), "\x1b[38;2;255;0;128m");
    assert_eq!(parse_color_spec("red"), "\x1b[31m");
    assert_eq!(parse_color_spec("#zz0080"), "\x1b[37m");
    assert_eq!(parse_color_spec_checked("#a\u{e9}\u{e9}b"), None);
}

#[test]
fn byte_colors() {
    let c = Colors::default();
    assert_eq!(c.null, "\x1b[90m");
    assert_eq!(c.reset, "\x1b[39m");
    assert_eq!(c.color_for_byte(0x41, ColorScheme::Default), Some("\x1b[36m"));
    assert_eq!(c.color_for_byte(0x0a, ColorScheme::Default), Some("\x1b[32m"));
    assert_eq!(c.color_for_byte(0x90, ColorScheme::Default), Some("\x1b[33m"));
    assert_eq!(c.color_for_byte(0x90, ColorScheme::Gradient), None);
    let p = Colors::plain();
    assert_eq!(p.color_for_byte(0, ColorScheme::Gradient), Some(""));
}

#[test]
fn plain_config() {
    let mut c = Config::default();
    assert_eq!(c.block_size, 512);
    c.apply_plain();
    assert!(c.plain);
    assert!(!c.show_characters);
    assert!(!c.show_position);
    assert_eq!(c.border, BorderStyle::NoBorder);
    assert_eq!(c.color, ColorMode::Never);
}
