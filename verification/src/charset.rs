//! Characters shown for bytes, by character table.
use vstd::prelude::*;

verus! {

/// How bytes are shown as characters.
#[derive(Debug, Clone, Copy, PartialEq, Eq, Structural)]
pub enum CharacterTable {
    Default,
    Ascii,
    Codepage1047,
    Codepage437,
    Braille,
}

/// Code page 437, position by position.
pub open spec fn cp437_table() -> Seq<char> {
    seq!['\u{0000}', '\u{263A}', '\u{263B}', '\u{2665}', '\u{2666}', '\u{2663}', '\u{2660}', '\u{2022}', '\u{25D8}', '\u{25CB}', '\u{25D9}', '\u{2642}', '\u{2640}', '\u{266A}', '\u{266B}', '\u{263C}', '\u{25BA}', '\u{25C4}', '\u{2195}', '\u{203C}', '\u{00B6}', '\u{00A7}', '\u{25AC}', '\u{21A8}', '\u{2191}', '\u{2193}', '\u{2192}', '\u{2190}', '\u{221F}', '\u{2194}', '\u{25B2}', '\u{25BC}', ' ', '!', '"', '#', '$', '%', '&', '\'', '(', ')', '*', '+', ',', '-', '.', '/', '0', '1', '2', '3', '4', '5', '6', '7', '8', '9', ':', ';', '<', '=', '>', '?', '@', 'A', 'B', 'C', 'D', 'E', 'F', 'G', 'H', 'I', 'J', 'K', 'L', 'M', 'N', 'O', 'P', 'Q', 'R', 'S', 'T', 'U', 'V', 'W', 'X', 'Y', 'Z', '[', '\\', ']', '^', '_', '`', 'a', 'b', 'c', 'd', 'e', 'f', 'g', 'h', 'i', 'j', 'k', 'l', 'm', 'n', 'o', 'p', 'q', 'r', 's', 't', 'u', 'v', 'w', 'x', 'y', 'z', '{', '|', '}', '~', '\u{2302}', '\u{00C7}', '\u{00FC}', '\u{00E9}', '\u{00E2}', '\u{00E4}', '\u{00E0}', '\u{00E5}', '\u{00E7}', '\u{00EA}', '\u{00EB}', '\u{00E8}', '\u{00EF}', '\u{00EE}', '\u{00EC}', '\u{00C4}', '\u{00C5}', '\u{00C9}', '\u{00E6}', '\u{00C6}', '\u{00F4}', '\u{00F6}', '\u{00F2}', '\u{00FB}', '\u{00F9}', '\u{00FF}', '\u{00D6}', '\u{00DC}', '\u{00A2}', '\u{00A3}', '\u{00A5}', '\u{20A7}', '\u{0192}', '\u{00E1}', '\u{00ED}', '\u{00F3}', '\u{00FA}', '\u{00F1}', '\u{00D1}', '\u{00AA}', '\u{00BA}', '\u{00BF}', '\u{2310}', '\u{00AC}', '\u{00BD}', '\u{00BC}', '\u{00A1}', '\u{00AB}', '\u{00BB}', '\u{2591}', '\u{2592}', '\u{2593}', '\u{2502}', '\u{2524}', '\u{2561}', '\u{2562}', '\u{2556}', '\u{2555}', '\u{2563}', '\u{2551}', '\u{2557}', '\u{255D}', '\u{255C}', '\u{255B}', '\u{2510}', '\u{2514}', '\u{2534}', '\u{252C}', '\u{251C}', '\u{2500}', '\u{253C}', '\u{255E}', '\u{255F}', '\u{255A}', '\u{2554}', '\u{2569}', '\u{2566}', '\u{2560}', '\u{2550}', '\u{256C}', '\u{2567}', '\u{2568}', '\u{2564}', '\u{2565}', '\u{2559}', '\u{2558}', '\u{2552}', '\u{2553}', '\u{256B}', '\u{256A}', '\u{2518}', '\u{250C}', '\u{2588}', '\u{2584}', '\u{258C}', '\u{2590}', '\u{2580}', '\u{03B1}', '\u{00DF}', '\u{0393}', '\u{03C0}', '\u{03A3}', '\u{03C3}', '\u{00B5}', '\u{03C4}', '\u{03A6}', '\u{0398}', '\u{03A9}', '\u{03B4}', '\u{221E}', '\u{03C6}', '\u{03B5}', '\u{2229}', '\u{2261}', '\u{00B1}', '\u{2265}', '\u{2264}', '\u{2320}', '\u{2321}', '\u{00F7}', '\u{2248}', '\u{00B0}', '\u{2219}', '\u{00B7}', '\u{221A}', '\u{207F}', '\u{00B2}', '\u{25A0}', '\u{00A0}']
}

/// The ASCII code that EBCDIC code page 1047 gives each byte (a dot where
/// none is defined).
pub open spec fn ebcdic1047_table() -> Seq<u8> {
    seq![0x2e, 0x2e, 0x2e, 0x2e, 0x2e, 0x2e, 0x2e, 0x2e, 0x2e, 0x2e, 0x2e, 0x2e, 0x2e, 0x2e, 0x2e, 0x2e, 0x2e, 0x2e, 0x2e, 0x2e, 0x2e, 0x2e, 0x2e, 0x2e, 0x2e, 0x2e, 0x2e, 0x2e, 0x2e, 0x2e, 0x2e, 0x2e, 0x2e, 0x2e, 0x2e, 0x2e, 0x2e, 0x2e, 0x2e, 0x2e, 0x2e, 0x2e, 0x2e, 0x2e, 0x2e, 0x2e, 0x2e, 0x2e, 0x2e, 0x2e, 0x2e, 0x2e, 0x2e, 0x2e, 0x2e, 0x2e, 0x2e, 0x2e, 0x2e, 0x2e, 0x2e, 0x2e, 0x2e, 0x2e, 0x20, 0x2e, 0x2e, 0x2e, 0x2e, 0x2e, 0x2e, 0x2e, 0x2e, 0x2e, 0x5b, 0x2e, 0x3c, 0x28, 0x2b, 0x21, 0x26, 0x29, 0x3b, 0x2d, 0x2f, 0x25, 0x5f, 0x3e, 0x3f, 0x23, 0x40, 0x27, 0x22, 0x3a, 0x24, 0x61, 0x62, 0x63, 0x64, 0x65, 0x66, 0x67, 0x68, 0x69, 0x6a, 0x6b, 0x6c, 0x6d, 0x6e, 0x6f, 0x70, 0x71, 0x72, 0x73, 0x74, 0x75, 0x76, 0x77, 0x78, 0x79, 0x7a, 0x2e, 0x2e, 0x2e, 0x2e, 0x2e, 0x2e, 0x2e, 0x2e, 0x41, 0x42, 0x43, 0x44, 0x45, 0x46, 0x47, 0x48, 0x49, 0x4a, 0x4b, 0x4c, 0x4d, 0x4e, 0x4f, 0x50, 0x51, 0x52, 0x53, 0x54, 0x55, 0x56, 0x57, 0x58, 0x59, 0x5a, 0x2e, 0x2e, 0x2e, 0x2e, 0x2e, 0x2e, 0x7e, 0x30, 0x31, 0x32, 0x33, 0x34, 0x35, 0x36, 0x37, 0x38, 0x39, 0x7c, 0x2c, 0x7b, 0x7d, 0x60, 0x2e, 0x2e, 0x2e, 0x2e, 0x2e, 0x2e, 0x2e, 0x2e, 0x2e, 0x2e, 0x2e, 0x2e, 0x2e, 0x2e, 0x2e, 0x7d, 0x4a, 0x41, 0x42, 0x43, 0x44, 0x45, 0x46, 0x47, 0x48, 0x49, 0x2e, 0x2e, 0x2e, 0x2e, 0x2e, 0x7d, 0x4b, 0x4c, 0x4d, 0x4e, 0x4f, 0x50, 0x51, 0x52, 0x53, 0x2e, 0x2e, 0x2e, 0x2e, 0x2e, 0x2e, 0x5c, 0x2e, 0x53, 0x54, 0x55, 0x56, 0x57, 0x58, 0x59, 0x5a, 0x2e, 0x2e, 0x2e, 0x2e, 0x2e, 0x2e, 0x30, 0x31, 0x32, 0x33, 0x34, 0x35, 0x36, 0x37, 0x38, 0x39, 0x7c, 0x2e, 0x2e, 0x2e, 0x2e, 0x2e]
}

fn cp437_char(b: u8) -> (c: char)
    ensures
        c == cp437_table()[b as int],
{
    let table: [char; 256] = ['\u{0000}', '\u{263A}', '\u{263B}', '\u{2665}', '\u{2666}', '\u{2663}', '\u{2660}', '\u{2022}', '\u{25D8}', '\u{25CB}', '\u{25D9}', '\u{2642}', '\u{2640}', '\u{266A}', '\u{266B}', '\u{263C}', '\u{25BA}', '\u{25C4}', '\u{2195}', '\u{203C}', '\u{00B6}', '\u{00A7}', '\u{25AC}', '\u{21A8}', '\u{2191}', '\u{2193}', '\u{2192}', '\u{2190}', '\u{221F}', '\u{2194}', '\u{25B2}', '\u{25BC}', ' ', '!', '"', '#', '$', '%', '&', '\'', '(', ')', '*', '+', ',', '-', '.', '/', '0', '1', '2', '3', '4', '5', '6', '7', '8', '9', ':', ';', '<', '=', '>', '?', '@', 'A', 'B', 'C', 'D', 'E', 'F', 'G', 'H', 'I', 'J', 'K', 'L', 'M', 'N', 'O', 'P', 'Q', 'R', 'S', 'T', 'U', 'V', 'W', 'X', 'Y', 'Z', '[', '\\', ']', '^', '_', '`', 'a', 'b', 'c', 'd', 'e', 'f', 'g', 'h', 'i', 'j', 'k', 'l', 'm', 'n', 'o', 'p', 'q', 'r', 's', 't', 'u', 'v', 'w', 'x', 'y', 'z', '{', '|', '}', '~', '\u{2302}', '\u{00C7}', '\u{00FC}', '\u{00E9}', '\u{00E2}', '\u{00E4}', '\u{00E0}', '\u{00E5}', '\u{00E7}', '\u{00EA}', '\u{00EB}', '\u{00E8}', '\u{00EF}', '\u{00EE}', '\u{00EC}', '\u{00C4}', '\u{00C5}', '\u{00C9}', '\u{00E6}', '\u{00C6}', '\u{00F4}', '\u{00F6}', '\u{00F2}', '\u{00FB}', '\u{00F9}', '\u{00FF}', '\u{00D6}', '\u{00DC}', '\u{00A2}', '\u{00A3}', '\u{00A5}', '\u{20A7}', '\u{0192}', '\u{00E1}', '\u{00ED}', '\u{00F3}', '\u{00FA}', '\u{00F1}', '\u{00D1}', '\u{00AA}', '\u{00BA}', '\u{00BF}', '\u{2310}', '\u{00AC}', '\u{00BD}', '\u{00BC}', '\u{00A1}', '\u{00AB}', '\u{00BB}', '\u{2591}', '\u{2592}', '\u{2593}', '\u{2502}', '\u{2524}', '\u{2561}', '\u{2562}', '\u{2556}', '\u{2555}', '\u{2563}', '\u{2551}', '\u{2557}', '\u{255D}', '\u{255C}', '\u{255B}', '\u{2510}', '\u{2514}', '\u{2534}', '\u{252C}', '\u{251C}', '\u{2500}', '\u{253C}', '\u{255E}', '\u{255F}', '\u{255A}', '\u{2554}', '\u{2569}', '\u{2566}', '\u{2560}', '\u{2550}', '\u{256C}', '\u{2567}', '\u{2568}', '\u{2564}', '\u{2565}', '\u{2559}', '\u{2558}', '\u{2552}', '\u{2553}', '\u{256B}', '\u{256A}', '\u{2518}', '\u{250C}', '\u{2588}', '\u{2584}', '\u{258C}', '\u{2590}', '\u{2580}', '\u{03B1}', '\u{00DF}', '\u{0393}', '\u{03C0}', '\u{03A3}', '\u{03C3}', '\u{00B5}', '\u{03C4}', '\u{03A6}', '\u{0398}', '\u{03A9}', '\u{03B4}', '\u{221E}', '\u{03C6}', '\u{03B5}', '\u{2229}', '\u{2261}', '\u{00B1}', '\u{2265}', '\u{2264}', '\u{2320}', '\u{2321}', '\u{00F7}', '\u{2248}', '\u{00B0}', '\u{2219}', '\u{00B7}', '\u{221A}', '\u{207F}', '\u{00B2}', '\u{25A0}', '\u{00A0}'];
    assert(table@ =~= cp437_table());
    table[b as usize]
}

/// The ASCII character that code page 1047 gives `b`.
fn ebcdic1047_to_ascii(b: u8) -> (c: char)
    ensures
        c == ebcdic1047_table()[b as int] as char,
{
    let table: [u8; 256] = [0x2e, 0x2e, 0x2e, 0x2e, 0x2e, 0x2e, 0x2e, 0x2e, 0x2e, 0x2e, 0x2e, 0x2e, 0x2e, 0x2e, 0x2e, 0x2e, 0x2e, 0x2e, 0x2e, 0x2e, 0x2e, 0x2e, 0x2e, 0x2e, 0x2e, 0x2e, 0x2e, 0x2e, 0x2e, 0x2e, 0x2e, 0x2e, 0x2e, 0x2e, 0x2e, 0x2e, 0x2e, 0x2e, 0x2e, 0x2e, 0x2e, 0x2e, 0x2e, 0x2e, 0x2e, 0x2e, 0x2e, 0x2e, 0x2e, 0x2e, 0x2e, 0x2e, 0x2e, 0x2e, 0x2e, 0x2e, 0x2e, 0x2e, 0x2e, 0x2e, 0x2e, 0x2e, 0x2e, 0x2e, 0x20, 0x2e, 0x2e, 0x2e, 0x2e, 0x2e, 0x2e, 0x2e, 0x2e, 0x2e, 0x5b, 0x2e, 0x3c, 0x28, 0x2b, 0x21, 0x26, 0x29, 0x3b, 0x2d, 0x2f, 0x25, 0x5f, 0x3e, 0x3f, 0x23, 0x40, 0x27, 0x22, 0x3a, 0x24, 0x61, 0x62, 0x63, 0x64, 0x65, 0x66, 0x67, 0x68, 0x69, 0x6a, 0x6b, 0x6c, 0x6d, 0x6e, 0x6f, 0x70, 0x71, 0x72, 0x73, 0x74, 0x75, 0x76, 0x77, 0x78, 0x79, 0x7a, 0x2e, 0x2e, 0x2e, 0x2e, 0x2e, 0x2e, 0x2e, 0x2e, 0x41, 0x42, 0x43, 0x44, 0x45, 0x46, 0x47, 0x48, 0x49, 0x4a, 0x4b, 0x4c, 0x4d, 0x4e, 0x4f, 0x50, 0x51, 0x52, 0x53, 0x54, 0x55, 0x56, 0x57, 0x58, 0x59, 0x5a, 0x2e, 0x2e, 0x2e, 0x2e, 0x2e, 0x2e, 0x7e, 0x30, 0x31, 0x32, 0x33, 0x34, 0x35, 0x36, 0x37, 0x38, 0x39, 0x7c, 0x2c, 0x7b, 0x7d, 0x60, 0x2e, 0x2e, 0x2e, 0x2e, 0x2e, 0x2e, 0x2e, 0x2e, 0x2e, 0x2e, 0x2e, 0x2e, 0x2e, 0x2e, 0x2e, 0x7d, 0x4a, 0x41, 0x42, 0x43, 0x44, 0x45, 0x46, 0x47, 0x48, 0x49, 0x2e, 0x2e, 0x2e, 0x2e, 0x2e, 0x7d, 0x4b, 0x4c, 0x4d, 0x4e, 0x4f, 0x50, 0x51, 0x52, 0x53, 0x2e, 0x2e, 0x2e, 0x2e, 0x2e, 0x2e, 0x5c, 0x2e, 0x53, 0x54, 0x55, 0x56, 0x57, 0x58, 0x59, 0x5a, 0x2e, 0x2e, 0x2e, 0x2e, 0x2e, 0x2e, 0x30, 0x31, 0x32, 0x33, 0x34, 0x35, 0x36, 0x37, 0x38, 0x39, 0x7c, 0x2e, 0x2e, 0x2e, 0x2e, 0x2e];
    assert(table@ =~= ebcdic1047_table());
    table[b as usize] as char
}


/// Printable ASCII other than space.
pub open spec fn spec_is_printable_ascii(b: u8) -> bool {
    0x21 <= b && b <= 0x7e
}

fn is_printable_ascii(b: u8) -> (r: bool)
    ensures
        r == spec_is_printable_ascii(b),
{
    0x21 <= b && b <= 0x7e
}

/// Tab, newline, carriage return, vertical tab and form feed.
pub open spec fn spec_is_ascii_whitespace(b: u8) -> bool {
    b == 0x09 || b == 0x0a || b == 0x0d || b == 0x0b || b == 0x0c
}

fn is_ascii_whitespace(b: u8) -> (r: bool)
    ensures
        r == spec_is_ascii_whitespace(b),
{
    b == 0x09 || b == 0x0a || b == 0x0d || b == 0x0b || b == 0x0c
}

/// The default table: a lozenge for NUL, space, printable ASCII as itself,
/// `_` for white space, a bullet for other ASCII, a cross otherwise.
pub open spec fn spec_map_default(b: u8) -> char {
    if b == 0 {
        '\u{22c4}'
    } else if b == 0x20 {
        ' '
    } else if spec_is_printable_ascii(b) {
        b as char
    } else if spec_is_ascii_whitespace(b) {
        '_'
    } else if b < 0x80 {
        '\u{2022}'
    } else {
        '\u{00d7}'
    }
}

fn map_default(b: u8) -> (c: char)
    ensures
        c == spec_map_default(b),
{
    if b == 0 {
        '\u{22c4}'
    } else if b == 0x20 {
        ' '
    } else if is_printable_ascii(b) {
        b as char
    } else if is_ascii_whitespace(b) {
        '_'
    } else if b < 0x80 {
        '\u{2022}'
    } else {
        '\u{00d7}'
    }
}

/// Space and printable ASCII as themselves, a dot otherwise.
pub open spec fn spec_map_ascii(b: u8) -> char {
    if b == 0x20 {
        ' '
    } else if spec_is_printable_ascii(b) {
        b as char
    } else {
        '.'
    }
}

fn map_ascii(b: u8) -> (c: char)
    ensures
        c == spec_map_ascii(b),
{
    if b == 0x20 {
        ' '
    } else if is_printable_ascii(b) {
        b as char
    } else {
        '.'
    }
}

/// The bytes that code page 1047 shows through its table.
pub open spec fn in_1047_ranges(b: u8) -> bool {
    (0x41 <= b && b <= 0x49) || (0x4a <= b && b <= 0x51) || (0x52 <= b && b <= 0x59) || (0x62 <= b
        && b <= 0x69) || (0x6a <= b && b <= 0x71) || (0x72 <= b && b <= 0x79) || (0x81 <= b && b
        <= 0x89) || (0x8a <= b && b <= 0x91) || (0x92 <= b && b <= 0x99) || (0xa2 <= b && b <= 0xa9)
        || (0xaa <= b && b <= 0xb1) || (0xb2 <= b && b <= 0xb9) || (0xc1 <= b && b <= 0xc9) || (0xca
        <= b && b <= 0xd1) || (0xd2 <= b && b <= 0xd9) || (0xe2 <= b && b <= 0xe9) || (0xea <= b
        && b <= 0xf1) || (0xf2 <= b && b <= 0xf9) || b == 0xfa
}

/// Code page 1047: space for `0x40`, the table's character for the bytes in
/// its ranges, a dot otherwise.
pub open spec fn spec_map_codepage1047(b: u8) -> char {
    if b == 0x40 {
        ' '
    } else if in_1047_ranges(b) {
        ebcdic1047_table()[b as int] as char
    } else {
        '.'
    }
}

fn map_codepage1047(b: u8) -> (c: char)
    ensures
        c == spec_map_codepage1047(b),
{
    if b == 0x40 {
        ' '
    } else if (0x41 <= b && b <= 0x49) || (0x4a <= b && b <= 0x51) || (0x52 <= b && b <= 0x59) || (
    0x62 <= b && b <= 0x69) || (0x6a <= b && b <= 0x71) || (0x72 <= b && b <= 0x79) || (0x81 <= b
        && b <= 0x89) || (0x8a <= b && b <= 0x91) || (0x92 <= b && b <= 0x99) || (0xa2 <= b && b
        <= 0xa9) || (0xaa <= b && b <= 0xb1) || (0xb2 <= b && b <= 0xb9) || (0xc1 <= b && b <= 0xc9)
        || (0xca <= b && b <= 0xd1) || (0xd2 <= b && b <= 0xd9) || (0xe2 <= b && b <= 0xe9) || (
    0xea <= b && b <= 0xf1) || (0xf2 <= b && b <= 0xf9) || b == 0xfa {
        ebcdic1047_to_ascii(b)
    } else {
        '.'
    }
}

/// Code page 437: space and printable ASCII as themselves, the table otherwise.
pub open spec fn spec_map_codepage437(b: u8) -> char {
    if b == 0x20 {
        ' '
    } else if spec_is_printable_ascii(b) {
        b as char
    } else {
        cp437_table()[b as int]
    }
}

fn map_codepage437(b: u8) -> (c: char)
    ensures
        c == spec_map_codepage437(b),
{
    if b == 0x20 {
        ' '
    } else if is_printable_ascii(b) {
        b as char
    } else {
        cp437_char(b)
    }
}

/// Braille: space and printable ASCII as themselves, otherwise the Braille
/// pattern `U+2800 + b`.
pub open spec fn spec_map_braille(b: u8) -> char {
    if b == 0x20 {
        ' '
    } else if spec_is_printable_ascii(b) {
        b as char
    } else {
        ((0x2800 + b) as u32) as char
    }
}

fn map_braille(b: u8) -> (c: char)
    ensures
        c == spec_map_braille(b),
{
    if b == 0x20 {
        ' '
    } else if is_printable_ascii(b) {
        b as char
    } else {
        match crate::chars::char_from_u32(0x2800 + b as u32) {
            Some(c) => c,
            None => '.',
        }
    }
}

/// The character that `table` shows for `b`.
pub open spec fn spec_map_byte(table: CharacterTable, b: u8) -> char {
    match table {
        CharacterTable::Default => spec_map_default(b),
        CharacterTable::Ascii => spec_map_ascii(b),
        CharacterTable::Codepage1047 => spec_map_codepage1047(b),
        CharacterTable::Codepage437 => spec_map_codepage437(b),
        CharacterTable::Braille => spec_map_braille(b),
    }
}

impl CharacterTable {
    /// The character shown for `byte`.
    pub fn map_byte(self, byte: u8) -> (c: char)
        ensures
            c == spec_map_byte(self, byte),
    {
        match self {
            CharacterTable::Default => map_default(byte),
            CharacterTable::Ascii => map_ascii(byte),
            CharacterTable::Codepage1047 => map_codepage1047(byte),
            CharacterTable::Codepage437 => map_codepage437(byte),
            CharacterTable::Braille => map_braille(byte),
        }
    }
}


/// In the default and ASCII tables the space and every printable ASCII byte
/// shows as the character with that code. Otherwise the ASCII table shows a
/// dot, and the default table a lozenge for NUL, `_` for tab, newline, form
/// feed and carriage return, a bullet for other ASCII bytes and a cross for
/// bytes above ASCII.
pub proof fn ascii_bytes_show_as_themselves(b: u8)
    ensures
        0x20 <= b <= 0x7e ==> spec_map_default(b) as u32 == b as u32 && spec_map_ascii(b) as u32 == b as u32,
        !(0x20 <= b <= 0x7e) ==> spec_map_ascii(b) == '.',
        b == 0 ==> spec_map_default(b) == '\u{22c4}',
        (b == 0x09 || b == 0x0a || b == 0x0c || b == 0x0d) ==> spec_map_default(b) == '_',
        (0x01 <= b <= 0x08 || 0x0e <= b <= 0x1f || b == 0x7f) ==> spec_map_default(b) == '\u{2022}',
        b >= 0x80 ==> spec_map_default(b) == '\u{00d7}',
{
    if 0x20 <= b <= 0x7e {
        assert((b as char) as u32 == b as u32);
        assert((' ' as u32) == 0x20);
    }
}
} // verus!
